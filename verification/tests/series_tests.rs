use comic_reader::series::{extract_series_info, is_decimal_digit, is_white_space_char};
use regex::Regex;

fn info(s: &str) -> Option<(String, String)> {
    extract_series_info(s)
}

/// The series name and number as the regex crate finds them, with the number
/// kept only when it parses as a float.
fn by_regex(stem: &str) -> Option<(String, String)> {
    let re = Regex::new(r"^(.*?)[-_ ](\d+(?:\.\d+)?)").unwrap();
    let caps = re.captures(stem)?;
    let series = caps.get(1)?.as_str().trim().to_lowercase();
    let num = caps.get(2)?.as_str().to_string();
    num.parse::<f64>().ok()?;
    if series.is_empty() {
        return None;
    }
    Some((series, num))
}

#[test]
fn simple_series_names() {
    assert_eq!(info("Naruto-12"), Some(("naruto".to_string(), "12".to_string())));
    assert_eq!(info("naruto_007"), Some(("naruto".to_string(), "007".to_string())));
    assert_eq!(info("Naruto 3.5"), Some(("naruto".to_string(), "3.5".to_string())));
    assert_eq!(info("Vol_1.2.3"), Some(("vol".to_string(), "1.2".to_string())));
    assert_eq!(info("Vol-2."), Some(("vol".to_string(), "2".to_string())));
}

#[test]
fn first_separator_before_a_digit_wins() {
    assert_eq!(info("One Piece - 12"), Some(("one piece -".to_string(), "12".to_string())));
    assert_eq!(info("a-b-3-4"), Some(("a-b".to_string(), "3".to_string())));
    assert_eq!(info("x 1 y 2"), Some(("x".to_string(), "1".to_string())));
}

#[test]
fn stems_without_series() {
    assert_eq!(info("noseries"), None);
    assert_eq!(info("12"), None);
    assert_eq!(info("-12"), None);
    assert_eq!(info("   -5"), None);
    assert_eq!(info("name-"), None);
    assert_eq!(info(""), None);
    assert_eq!(info("line\nbreak-3"), None);
}

#[test]
fn non_ascii_digits_do_not_parse() {
    assert_eq!(info("name-٣"), None);
    assert_eq!(info("name-1٣"), None);
    assert_eq!(info("name-1.٣"), None);
}

#[test]
fn agrees_with_the_regex() {
    let stems = [
        "Naruto-12", "naruto_007", "Naruto 3.5", "One Piece - 12", "a-b-3-4", "noseries", "12", "-12",
        "   -5", "name-", "", "line\nbreak-3", "name-٣", "name-1٣", "name-1.٣", "  Spaced  _ 9",
        "Ünïcödé_4", "ΣΑΣ-1", "Tab\t-2", "x-1.", "x-1..2", "x_1.2.3", "\u{3000}a\u{3000}-8", "a-\u{ff11}",
        "A_B_C 10.25 extra", "dup--3", "z 0", "İstanbul-2",
    ];
    for s in stems {
        assert_eq!(info(s), by_regex(s), "stem {:?}", s);
    }
}

#[test]
fn digit_class_matches_regex_for_every_char() {
    let re = Regex::new(r"^\d$").unwrap();
    for v in 0u32..=0x10FFFF {
        if let Some(c) = char::from_u32(v) {
            let mut buf = [0u8; 4];
            assert_eq!(is_decimal_digit(c), re.is_match(c.encode_utf8(&mut buf)), "char {:#x}", v);
        }
    }
}

#[test]
fn white_space_matches_std_for_every_char() {
    for v in 0u32..=0x10FFFF {
        if let Some(c) = char::from_u32(v) {
            assert_eq!(is_white_space_char(c), c.is_whitespace(), "char {:#x}", v);
        }
    }
}
