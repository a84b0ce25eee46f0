use buildline::adapters::cargo::{extract_balanced_array, Cargo, CargoUnit};
use buildline::adapters::ninja::Ninja;
use buildline::adapters::ParseError;
use buildline::text::NumberError;
use buildline::span::{Category, Status};

const NINJA_LOG: &str = "# ninja log v5\n\
0\t100\t0\tobj/a.o\t1a2b\n\
0\t150\t0\tobj/b.o\t3c4d\n\
100\t240\t0\tobj/c.o\t5e6f\n\
240\t380\t0\tbin/app\t7a8b\n";

fn chars(s: &str) -> Vec<char> {
    s.chars().collect()
}

#[test]
fn ninja_simple_log_gives_relative_packed_spans() {
    let n = Ninja;
    assert!(n.log_in_range(NINJA_LOG.as_bytes()));
    let spans = n.parse(NINJA_LOG.as_bytes()).expect("ninja log parses");
    assert_eq!(spans.len(), 4);
    let names: Vec<&str> = spans.iter().map(|s| s.name.as_str()).collect();
    assert_eq!(names, vec!["obj/a.o", "obj/b.o", "obj/c.o", "bin/app"]);
    let starts: Vec<i64> = spans.iter().map(|s| s.start_us).collect();
    assert_eq!(starts, vec![0, 0, 100_000, 240_000]);
    let durs: Vec<i64> = spans.iter().map(|s| s.dur_us).collect();
    assert_eq!(durs, vec![100_000, 150_000, 140_000, 140_000]);
    let lanes: Vec<u32> = spans.iter().map(|s| s.lane).collect();
    assert_eq!(lanes, vec![0, 1, 0, 0]);
    assert!(spans[0].category == Category::Compile);
    assert!(spans[2].category == Category::Compile);
    assert!(spans[3].category == Category::Link);
    for s in &spans {
        assert_eq!(s.track, "ninja");
        assert_eq!(s.status, Status::Success);
        assert_eq!(s.args.len(), 0);
    }
}

#[test]
fn ninja_skips_comments_blank_and_short_lines() {
    let log = "# header\n\n1\t2\t3\n# another\n5\t9\t0\tout.obj\th\n";
    let spans = Ninja.parse(log.as_bytes()).expect("parses");
    assert_eq!(spans.len(), 1);
    assert_eq!(spans[0].name, "out.obj");
    assert_eq!(spans[0].start_us, 5_000);
    assert_eq!(spans[0].dur_us, 4_000);
    assert!(spans[0].category == Category::Compile);
}

#[test]
fn ninja_handles_crlf_and_missing_final_newline() {
    let log = "1\t3\t0\tlib/x.so\th\r\n4\t6\t0\tdir/obj\th";
    let spans = Ninja.parse(log.as_bytes()).expect("parses");
    assert_eq!(spans.len(), 2);
    assert_eq!(spans[0].name, "lib/x.so");
    assert!(spans[0].category == Category::Link);
    // The base name "obj" has no dot, so its whole name is the extension.
    assert_eq!(spans[1].name, "dir/obj");
    assert!(spans[1].category == Category::Compile);
}

#[test]
fn ninja_signed_and_plus_prefixed_times() {
    let log = "+7\t-3\t0\tneg.o\th\n";
    let spans = Ninja.parse(log.as_bytes()).expect("parses");
    assert_eq!(spans[0].start_us, 7_000);
    assert_eq!(spans[0].dur_us, -10_000);
}

#[test]
fn ninja_bad_number_is_an_error() {
    let log = "0\t10\t0\ta.o\th\nx1\t20\t0\tb.o\th\n";
    assert_eq!(
        Ninja.parse(log.as_bytes()).err(),
        Some(ParseError::InvalidNumber(NumberError::InvalidDigit))
    );
    let log = "0\t 10\t0\ta.o\th\n";
    assert_eq!(
        Ninja.parse(log.as_bytes()).err(),
        Some(ParseError::InvalidNumber(NumberError::InvalidDigit))
    );
}

#[test]
fn ninja_number_errors_keep_their_kind() {
    let empty = "\t10\t0\ta.o\th\n";
    assert_eq!(Ninja.parse(empty.as_bytes()).err(), Some(ParseError::InvalidNumber(NumberError::Empty)));
    let big = "99999999999999999999\t1\t0\ta.o\th\n";
    assert_eq!(
        Ninja.parse(big.as_bytes()).err(),
        Some(ParseError::InvalidNumber(NumberError::PosOverflow))
    );
    let small = "0\t-99999999999999999999\t0\ta.o\th\n";
    assert_eq!(
        Ninja.parse(small.as_bytes()).err(),
        Some(ParseError::InvalidNumber(NumberError::NegOverflow))
    );
    // The start is read first: its error wins over the end's.
    let both = "x\t\t0\ta.o\th\n";
    assert_eq!(
        Ninja.parse(both.as_bytes()).err(),
        Some(ParseError::InvalidNumber(NumberError::InvalidDigit))
    );
    let end_only = "5\t\t0\ta.o\th\n";
    assert_eq!(Ninja.parse(end_only.as_bytes()).err(), Some(ParseError::InvalidNumber(NumberError::Empty)));
}

#[test]
fn ninja_invalid_utf8_is_an_error() {
    let bytes = [0x30u8, 0x09, 0xff, 0xfe];
    assert_eq!(
        Ninja.parse(&bytes).err(),
        Some(ParseError::InvalidUtf8 { valid_up_to: 2, error_len: Some(1) })
    );
    let cut = [0x30u8, 0xe2, 0x82];
    assert_eq!(
        Ninja.parse(&cut).err(),
        Some(ParseError::InvalidUtf8 { valid_up_to: 1, error_len: None })
    );
}

#[test]
fn ninja_range_check_flags_overflowing_times() {
    let log = "9223372036854775807\t9223372036854775807\t0\ta.o\th\n";
    assert!(!Ninja.log_in_range(log.as_bytes()));
    let fine = "9223372036854775\t9223372036854775\t0\ta.o\th\n";
    assert!(Ninja.log_in_range(fine.as_bytes()));
    // A malformed record stops the parse before any later record is reached.
    let stopped = "x\t1\t0\ta.o\th\n9223372036854775807\t0\t0\tb.o\th\n";
    assert!(Ninja.log_in_range(stopped.as_bytes()));
}

#[test]
fn ninja_adapter_name() {
    assert_eq!(Ninja.name(), "ninja");
    assert_eq!(Cargo.name(), "cargo");
}

#[test]
fn cargo_unit_data_is_found_after_marker() {
    let html = "<html><script>\nconst UNIT_DATA = [{\"name\":\"a[b\",\"x\":[1,[2]]},{\"s\":\"q\\\"]\"}];\nconst OTHER = [];</script>";
    let json = Cargo.unit_data(html.as_bytes()).expect("found");
    assert_eq!(json, "[{\"name\":\"a[b\",\"x\":[1,[2]]},{\"s\":\"q\\\"]\"}]");
}

#[test]
fn cargo_unit_data_errors() {
    assert_eq!(Cargo.unit_data(b"<html>no data</html>").err(), Some(ParseError::NoUnitData));
    assert_eq!(
        Cargo.unit_data(b"const UNIT_DATA = [1, [2]").err(),
        Some(ParseError::MalformedUnitData)
    );
    assert_eq!(Cargo.unit_data(b"const UNIT_DATA = {}").err(), Some(ParseError::MalformedUnitData));
    assert_eq!(
        Cargo.unit_data(&[0xc3u8, 0x28]).err(),
        Some(ParseError::InvalidUtf8 { valid_up_to: 0, error_len: Some(1) })
    );
}

#[test]
fn balanced_array_skips_leading_text_and_strings() {
    let r = extract_balanced_array(&chars("x = [\"]\", [\"[\"]] tail]")).expect("closes");
    assert_eq!(r.iter().collect::<String>(), "[\"]\", [\"[\"]]");
    assert!(extract_balanced_array(&chars("no bracket")).is_none());
    assert!(extract_balanced_array(&chars("[ \"unterminated ]")).is_none());
}

fn unit(name: &str, version: &str, mode: &str, target: &str, start_us: i64, dur_us: i64) -> CargoUnit {
    CargoUnit {
        name: name.to_string(),
        version: version.to_string(),
        mode: mode.to_string(),
        target: target.to_string(),
        start_us,
        dur_us,
    }
}

#[test]
fn cargo_units_become_named_spans() {
    let units = vec![
        unit("serde", "1.0.200", "todo", "", 0, 500_000),
        unit("app", "0.1.0", "run-custom-build", " build-script-build ", 100_000, 200_000),
        unit("app", "0.1.0", "todo", " bin \"app\"", 500_000, 300_000),
    ];
    let spans = Cargo.spans(units);
    assert_eq!(spans.len(), 3);
    assert_eq!(spans[0].name, "serde v1.0.200");
    assert_eq!(spans[1].name, "app v0.1.0 build-script-build");
    assert_eq!(spans[2].name, "app v0.1.0 bin \"app\"");
    assert!(spans[0].category == Category::Compile);
    assert!(spans[1].category == Category::Other("run-custom-build".to_string()));
    assert_eq!(spans[1].category.as_str(), "run-custom-build");
    assert_eq!(spans[0].args.get("version").map(|s| s.as_str()), Some("1.0.200"));
    assert_eq!(spans[0].args.len(), 1);
    let lanes: Vec<u32> = spans.iter().map(|s| s.lane).collect();
    assert_eq!(lanes, vec![0, 1, 0]);
    for s in &spans {
        assert_eq!(s.track, "cargo");
        assert_eq!(s.status, Status::Success);
    }
}
