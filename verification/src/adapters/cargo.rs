//! Reads cargo's `--timings` report.
//!
//! Stable cargo writes `target/cargo-timings/cargo-timing.html`, a
//! self-contained page that embeds the per-unit data as a JavaScript array
//! literal, `const UNIT_DATA = [...]`, which is valid JSON. This adapter
//! locates that array in the page; the units decoded from it become spans.
use super::{utf8_error, ParseError};
use crate::lane::{ends_fit, interval_end, pack_lanes, packed_lane, timings, with_lane};
use crate::span::{Category, Span, Status};
use crate::text::{
    append_chars, chars_of, decode_text, find, find_char_exec, find_char_from, find_chars,
    find_from, lemma_find_char_from, str_eq, string_from_chars, sub_chars, trim, trim_chars,
};
use crate::text_map::TextMap;
use vstd::prelude::*;
use vstd::utf8::*;

verus! {

broadcast use vstd::std_specs::vec::axiom_spec_into_iter;

/// The cargo adapter.
pub struct Cargo;

/// One compilation unit from the report, with its times already in
/// microseconds from cargo's start.
pub struct CargoUnit {
    pub name: String,
    pub version: String,
    /// Cargo's own unit-kind label, e.g. `todo` or `run-custom-build`.
    pub mode: String,
    pub target: String,
    pub start_us: i64,
    pub dur_us: i64,
}

/// The text that introduces the unit array in the report.
pub open spec fn unit_marker() -> Seq<char> {
    "const UNIT_DATA = "@
}

/// Where the array scan stands after position `i`: the first index at which
/// the bracket depth returns to zero, skipping brackets inside JSON string
/// literals (with backslash escapes).
pub open spec fn scan_array(s: Seq<char>, i: int, depth: int, in_string: bool, escaped: bool) -> Option<int>
    decreases s.len() - i,
{
    if i < 0 || i >= s.len() {
        None
    } else if in_string {
        if escaped {
            scan_array(s, i + 1, depth, true, false)
        } else if s[i] == '\\' {
            scan_array(s, i + 1, depth, true, true)
        } else if s[i] == '"' {
            scan_array(s, i + 1, depth, false, false)
        } else {
            scan_array(s, i + 1, depth, true, false)
        }
    } else if s[i] == '"' {
        scan_array(s, i + 1, depth, true, false)
    } else if s[i] == '[' {
        scan_array(s, i + 1, depth + 1, false, false)
    } else if s[i] == ']' {
        if depth - 1 == 0 {
            Some(i)
        } else {
            scan_array(s, i + 1, depth - 1, false, false)
        }
    } else {
        scan_array(s, i + 1, depth, false, false)
    }
}

/// The array that starts at the first `[` of `s`, up to and including its
/// matching `]`; `None` when there is no `[` or it never closes.
pub open spec fn balanced_array(s: Seq<char>) -> Option<Seq<char>> {
    match find_char_from(s, '[', 0) {
        None => None,
        Some(start) => match scan_array(s, start, 0, false, false) {
            Some(end) => Some(s.subrange(start, end + 1)),
            None => None,
        },
    }
}

/// The text after the first unit marker of `html`.
pub open spec fn after_marker(html: Seq<char>) -> Option<Seq<char>> {
    match find(html, unit_marker()) {
        Some(i) => Some(html.subrange(i + unit_marker().len(), html.len() as int)),
        None => None,
    }
}

/// What `Cargo::unit_data` returns for the report `input`.
pub open spec fn unit_data(input: Seq<u8>) -> Result<Seq<char>, ParseError> {
    if !valid_utf8(input) {
        Err(utf8_error(input))
    } else {
        match after_marker(decode_utf8(input)) {
            None => Err(ParseError::NoUnitData),
            Some(rest) => match balanced_array(rest) {
                None => Err(ParseError::MalformedUnitData),
                Some(a) => Ok(a),
            },
        }
    }
}

/// The span name of a unit: `name vVERSION`, followed by a space and the
/// trimmed target when that is not empty.
pub open spec fn unit_span_name(u: CargoUnit) -> Seq<char> {
    let suffix = trim(u.target@);
    if suffix.len() == 0 {
        u.name@ + " v"@ + u.version@
    } else {
        u.name@ + " v"@ + u.version@ + " "@ + suffix
    }
}

/// The category of a unit kind: `todo` is real compilation (of a crate or of
/// its build script); anything else, such as running a build script, stays
/// visibly `Other` with cargo's own label.
pub open spec fn mode_category(mode: Seq<char>, c: Category) -> bool {
    if mode == "todo"@ {
        c is Compile
    } else {
        c matches Category::Other(m) && m@ == mode
    }
}

/// `s` is the (not yet lane-packed) span of unit `u`.
pub open spec fn is_unit_span(s: Span, u: CargoUnit) -> bool {
    &&& s.name@ == unit_span_name(u)
    &&& mode_category(u.mode@, s.category)
    &&& s.status == Status::Success
    &&& s.track@ == "cargo"@
    &&& s.start_us == u.start_us
    &&& s.dur_us == u.dur_us
    &&& s.args@ == Map::<Seq<char>, String>::empty().insert("version"@, u.version)
}

/// The start and duration of each unit.
pub open spec fn unit_timings(units: Seq<CargoUnit>) -> Seq<(i64, i64)> {
    units.map_values(|u: CargoUnit| (u.start_us, u.dur_us))
}

/// The category of a unit kind.
fn classify(mode: &str) -> (c: Category)
    ensures
        mode_category(mode@, c),
{
    if str_eq(mode, "todo") {
        Category::Compile
    } else {
        Category::Other(mode.to_owned())
    }
}

/// The array that starts at the first `[` of `s`, up to its matching `]`,
/// skipping brackets inside string literals.
pub fn extract_balanced_array(s: &[char]) -> (r: Option<Vec<char>>)
    ensures
        match balanced_array(s@) {
            Some(a) => r matches Some(v) && v@ == a,
            None => r is None,
        },
{
    proof {
        lemma_find_char_from(s@, '[', 0);
    }
    let start = match find_char_exec(s, '[', 0) {
        Some(st) => st,
        None => {
            return None;
        },
    };
    let n = s.len();
    let mut depth: usize = 1;
    let mut in_string = false;
    let mut escaped = false;
    let mut i = start + 1;
    assert(scan_array(s@, start as int, 0, false, false) == scan_array(s@, i as int, 1, false, false));
    while i < n
        invariant
            n == s@.len(),
            start < i <= n,
            1 <= depth <= i,
            !in_string ==> !escaped,
            find_char_from(s@, '[', 0) == Some(start as int),
            scan_array(s@, start as int, 0, false, false) == scan_array(
                s@,
                i as int,
                depth as int,
                in_string,
                escaped,
            ),
        decreases n - i,
    {
        let c = s[i];
        if in_string {
            if escaped {
                escaped = false;
            } else if c == '\\' {
                escaped = true;
            } else if c == '"' {
                in_string = false;
            }
        } else if c == '"' {
            in_string = true;
        } else if c == '[' {
            depth = depth + 1;
        } else if c == ']' {
            if depth == 1 {
                return Some(sub_chars(s, start, i + 1));
            }
            depth = depth - 1;
        }
        i = i + 1;
    }
    None
}

impl Cargo {
    /// The adapter's id, which is also the default track name.
    pub fn name(&self) -> (r: &'static str)
        ensures
            r@ == "cargo"@,
    {
        "cargo"
    }

    /// The JSON text of the unit array in a `--timings` report: the array
    /// after the first `const UNIT_DATA = `, up to its matching bracket.
    pub fn unit_data(&self, input: &[u8]) -> (r: Result<String, ParseError>)
        ensures
            match unit_data(input@) {
                Ok(a) => r matches Ok(j) && j@ == a,
                Err(e) => r == Err::<String, ParseError>(e),
            },
    {
        let html = match decode_text(input) {
            Ok(t) => t,
            Err(f) => {
                return Err(ParseError::InvalidUtf8 { valid_up_to: f.0, error_len: f.1 });
            },
        };
        let marker = chars_of("const UNIT_DATA = ");
        proof {
            reveal_strlit("const UNIT_DATA = ");
        }
        let at = match find_chars(html.as_slice(), marker.as_slice()) {
            Some(i) => i,
            None => {
                return Err(ParseError::NoUnitData);
            },
        };
        proof {
            lemma_find_bounds(html@, marker@, 0);
        }
        let hl = html.len();
        assert(at + marker@.len() <= hl);
        let rest = sub_chars(html.as_slice(), at + marker.len(), hl);
        match extract_balanced_array(rest.as_slice()) {
            Some(a) => Ok(string_from_chars(a.as_slice())),
            None => Err(ParseError::MalformedUnitData),
        }
    }

    /// The spans of the decoded units, in unit order, lane-packed.
    pub fn spans(&self, units: Vec<CargoUnit>) -> (r: Vec<Span>)
        requires
            ends_fit(unit_timings(units@)),
        ensures
            r@.len() == units@.len(),
            forall|i: int|
                0 <= i < units@.len() ==> is_unit_span(#[trigger] r@[i], units@[i])
                    && r@[i].lane == packed_lane(unit_timings(units@), i) as u32,
    {
        let ghost us = units@;
        let mut spans: Vec<Span> = Vec::new();
        proof {
            reveal_strlit(" v");
            reveal_strlit(" ");
            reveal_strlit("cargo");
            reveal_strlit("version");
        }
        for u in it: units.into_iter()
            invariant
                it.seq() == us,
                spans@.len() == it.index(),
                forall|i: int| 0 <= i < spans@.len() ==> is_unit_span(#[trigger] spans@[i], us[i]),
        {
            let ghost idx = it.index();
            assert(u == us[idx as int]);
            let suffix = trim_chars(chars_of(u.target.as_str()).as_slice());
            let mut name = chars_of(u.name.as_str());
            append_chars(&mut name, chars_of(" v").as_slice());
            append_chars(&mut name, chars_of(u.version.as_str()).as_slice());
            if suffix.len() > 0 {
                append_chars(&mut name, chars_of(" ").as_slice());
                append_chars(&mut name, suffix.as_slice());
            }
            let category = classify(u.mode.as_str());
            let mut args: TextMap<String> = TextMap::new();
            let ghost version = u.version;
            args.insert("version".to_owned(), u.version);
            let span = Span {
                name: string_from_chars(name.as_slice()),
                category,
                status: Status::Success,
                track: "cargo".to_owned(),
                lane: 0,
                start_us: u.start_us,
                dur_us: u.dur_us,
                args,
            };
            assert(is_unit_span(span, us[idx as int]));
            spans.push(span);
        }
        proof {
            assert(timings(spans@) =~= unit_timings(us));
            assert forall|i: int| 0 <= i < spans@.len() implies i64::MIN <= #[trigger] interval_end(
                timings(spans@)[i],
            ) <= i64::MAX by {
                assert(is_unit_span(spans@[i], us[i]));
                assert(interval_end(unit_timings(us)[i]) == interval_end(timings(spans@)[i]));
            }
        }
        let ghost unpacked = spans@;
        pack_lanes(spans.as_mut_slice());
        proof {
            assert forall|i: int| 0 <= i < us.len() implies is_unit_span(#[trigger] spans@[i], us[i])
                && spans@[i].lane == packed_lane(unit_timings(us), i) as u32 by {
                assert(spans@[i] == with_lane(unpacked[i], packed_lane(timings(unpacked), i) as u32));
                assert(is_unit_span(unpacked[i], us[i]));
            }
        }
        spans
    }
}

/// Where `find_from` finds the needle, it occurs in full.
pub proof fn lemma_find_bounds(hay: Seq<char>, needle: Seq<char>, from: int)
    ensures
        find_from(hay, needle, from) matches Some(i) ==> from <= i && i + needle.len() <= hay.len(),
    decreases hay.len() + 1 - from,
{
    if !(from < 0 || from + needle.len() > hay.len()) && !crate::text::occurs_at(hay, needle, from) {
        lemma_find_bounds(hay, needle, from + 1);
    }
}

} // verus!
