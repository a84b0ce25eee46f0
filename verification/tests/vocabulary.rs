use buildline::span::{Category, Status};
use buildline::text::{chars_of, parse_i64_chars, split_chars, split_lines, trim_chars, NumberError};
use std::num::IntErrorKind;
use buildline::text_map::TextMap;

#[test]
fn category_names_round_trip() {
    for name in ["compile", "link", "configure", "resolve", "download", "test", "run-custom-build", ""] {
        assert_eq!(Category::from_name(name).as_str(), name);
    }
    assert!(Category::from_name("compile") == Category::Compile);
    assert!(Category::from_name("Compile") == Category::Other("Compile".to_string()));
    // A reserved name held in Other normalizes to its term.
    let other = Category::Other("link".to_string());
    assert!(Category::from_name(other.as_str()) == Category::Link);
    assert!(Category::Compile != Category::Link);
}

#[test]
fn status_names_and_default() {
    assert_eq!(Status::Success.as_str(), "success");
    assert_eq!(Status::Failed.as_str(), "failed");
    assert_eq!(Status::Skipped.as_str(), "skipped");
    assert_eq!(Status::Incomplete.as_str(), "incomplete");
    assert_eq!(Status::default(), Status::Success);
}

fn std_kind(e: NumberError) -> IntErrorKind {
    match e {
        NumberError::Empty => IntErrorKind::Empty,
        NumberError::InvalidDigit => IntErrorKind::InvalidDigit,
        NumberError::PosOverflow => IntErrorKind::PosOverflow,
        NumberError::NegOverflow => IntErrorKind::NegOverflow,
    }
}

#[test]
fn i64_parsing_matches_std() {
    for s in ["0", "-0", "+5", "-9223372036854775808", "9223372036854775807", "007", "", "-", "+", "12a",
        "9223372036854775808", "-9223372036854775809", " 1", "1 ", "99999999999999999999999",
        "99999999999999999999x", "1x99999999999999999999", "-99999999999999999999", "+-5", "--5"] {
        let got = parse_i64_chars(&chars_of(s)).map_err(std_kind);
        let want = s.parse::<i64>().map_err(|e| e.kind().clone());
        assert_eq!(got, want, "input {:?}", s);
    }
}

#[test]
fn i64_parse_errors_name_their_kind() {
    assert_eq!(parse_i64_chars(&chars_of("")), Err(NumberError::Empty));
    assert_eq!(parse_i64_chars(&chars_of("-")), Err(NumberError::InvalidDigit));
    assert_eq!(parse_i64_chars(&chars_of("12a")), Err(NumberError::InvalidDigit));
    assert_eq!(parse_i64_chars(&chars_of("9223372036854775808")), Err(NumberError::PosOverflow));
    assert_eq!(parse_i64_chars(&chars_of("-9223372036854775809")), Err(NumberError::NegOverflow));
    assert_eq!(parse_i64_chars(&chars_of("-9223372036854775808")), Ok(i64::MIN));
}

#[test]
fn lines_match_std() {
    for s in ["", "a", "a\n", "a\n\n", "a\r\nb", "a\rb\n", "\n", "x\r", "x\r\n\r\n"] {
        let got: Vec<String> = split_lines(&chars_of(s)).iter().map(|l| l.iter().collect()).collect();
        let want: Vec<String> = s.lines().map(|l| l.to_string()).collect();
        assert_eq!(got, want, "input {:?}", s);
    }
}

#[test]
fn split_matches_std() {
    for s in ["", "a", "a\tb", "\t", "a\t\tb\t"] {
        let got: Vec<String> = split_chars(&chars_of(s), '\t').iter().map(|l| l.iter().collect()).collect();
        let want: Vec<String> = s.split('\t').map(|l| l.to_string()).collect();
        assert_eq!(got, want, "input {:?}", s);
    }
}

#[test]
fn trim_matches_std() {
    for s in ["", "  ", " a ", "\u{3000}x\u{85}", "\u{a0}y z\t\n", "q"] {
        let got: String = trim_chars(&chars_of(s)).iter().collect();
        assert_eq!(got, s.trim(), "input {:?}", s);
    }
}

#[test]
fn text_map_keeps_one_entry_per_key() {
    let mut m: TextMap<i64> = TextMap::new();
    m.insert("a".to_string(), 1);
    m.insert("b".to_string(), 2);
    m.insert("a".to_string(), 3);
    assert_eq!(m.len(), 2);
    assert_eq!(m.get("a"), Some(&3));
    assert!(m.contains_key("b"));
    assert!(!m.contains_key("c"));
    assert_eq!(m.entries()[0].0, "a");
}

#[test]
fn text_map_walks_keys_in_order() {
    let mut m = TextMap::new();
    for (k, v) in [("pid", 1i64), ("b", 2), ("abc", 3), ("ab", 4), ("é", 5), ("Z", 6), ("b", 7)] {
        m.insert(k.to_string(), v);
    }
    let keys: Vec<&str> = m.entries().iter().map(|(k, _)| k.as_str()).collect();
    assert_eq!(keys, vec!["Z", "ab", "abc", "b", "pid", "é"]);
    let mut sorted = keys.clone();
    sorted.sort();
    assert_eq!(keys, sorted);
    assert_eq!(m.get("b"), Some(&7));
    assert_eq!(m.len(), 6);
}

#[test]
fn category_from_str() {
    assert!(Category::from("compile") == Category::Compile);
    assert!(Category::from("test") == Category::Test);
    assert!(Category::from("run-custom-build") == Category::Other("run-custom-build".to_string()));
}
