//! Reads ninja's `.ninja_log` (format v5/v6), which every ninja build writes.
//!
//! Line format, tab-separated: `start_ms  end_ms  restat_mtime  output  cmd_hash`,
//! with `start_ms` / `end_ms` in milliseconds since ninja started.
use super::{utf8_error, ParseError};
use crate::lane::{interval_end, pack_lanes, packed_lane, timings, ends_fit, with_lane};
use crate::span::{Category, Span, Status};
use crate::text::{
    chars_eq, chars_of, decode_text, lines, parse_i64, parse_i64_chars, parse_i64_error,
    split_chars, split_lines, split_on, string_from_chars, sub_chars, views, NumberError,
    is_last_piece, lemma_last_piece_unique, lemma_split_last,
};
use crate::text_map::TextMap;
use vstd::prelude::*;
use vstd::utf8::*;

verus! {

/// The ninja adapter.
pub struct Ninja;

/// The fields of a log line.
pub open spec fn fields(line: Seq<char>) -> Seq<Seq<char>> {
    split_on(line, '\t')
}

/// A header or comment line, an empty line, or a malformed line with fewer
/// than five fields: all skipped without failing the parse.
pub open spec fn is_ignored_line(line: Seq<char>) -> bool {
    line.len() == 0 || line[0] == '#' || fields(line).len() < 5
}

/// The line's start time in milliseconds, if its first field is an `i64`.
pub open spec fn line_start(line: Seq<char>) -> Option<i64> {
    parse_i64(fields(line)[0])
}

/// The line's end time in milliseconds, if its second field is an `i64`.
pub open spec fn line_end(line: Seq<char>) -> Option<i64> {
    parse_i64(fields(line)[1])
}

/// The output the line records (its fourth field).
pub open spec fn line_output(line: Seq<char>) -> Seq<char> {
    fields(line)[3]
}

/// A line that is not skipped but whose start or end is not an integer: the
/// whole parse fails on it.
pub open spec fn is_bad_line(line: Seq<char>) -> bool {
    !is_ignored_line(line) && (line_start(line) is None || line_end(line) is None)
}

/// Why a bad line fails the parse: its start, which is read first, or else
/// its end is not an `i64`.
pub open spec fn line_error(line: Seq<char>) -> NumberError {
    if line_start(line) is None {
        parse_i64_error(fields(line)[0])
    } else {
        parse_i64_error(fields(line)[1])
    }
}

/// The error of the first bad line of `ls`, if there is one.
pub open spec fn log_fault(ls: Seq<Seq<char>>) -> Option<NumberError>
    decreases ls.len(),
{
    if ls.len() == 0 {
        None
    } else {
        match log_fault(ls.drop_last()) {
            Some(e) => Some(e),
            None => if is_bad_line(ls.last()) {
                Some(line_error(ls.last()))
            } else {
                None
            },
        }
    }
}

/// A line that records one build step.
pub open spec fn is_record_line(line: Seq<char>) -> bool {
    !is_ignored_line(line) && line_start(line) is Some && line_end(line) is Some
}

/// The record lines of `ls`, in order, or `None` when some line is bad.
pub open spec fn log_records(ls: Seq<Seq<char>>) -> Option<Seq<Seq<char>>>
    decreases ls.len(),
{
    if ls.len() == 0 {
        Some(seq![])
    } else {
        match log_records(ls.drop_last()) {
            None => None,
            Some(rs) => if is_ignored_line(ls.last()) {
                Some(rs)
            } else if is_bad_line(ls.last()) {
                None
            } else {
                Some(rs.push(ls.last()))
            },
        }
    }
}

/// The lines of a log given as bytes.
pub open spec fn log_lines(input: Seq<u8>) -> Seq<Seq<char>> {
    lines(decode_utf8(input))
}

pub open spec fn start_ms(line: Seq<char>) -> int {
    line_start(line)->0 as int
}

pub open spec fn end_ms(line: Seq<char>) -> int {
    line_end(line)->0 as int
}

/// The step's start in microseconds.
pub open spec fn start_us(line: Seq<char>) -> int {
    start_ms(line) * 1000
}

/// The step's duration in microseconds.
pub open spec fn dur_us(line: Seq<char>) -> int {
    (end_ms(line) - start_ms(line)) * 1000
}

pub open spec fn in_i64(x: int) -> bool {
    i64::MIN <= x <= i64::MAX
}

/// The start, the difference of end and start, and the duration of a record
/// all fit in an `i64`.
pub open spec fn record_fits(line: Seq<char>) -> bool {
    in_i64(start_us(line)) && in_i64(end_ms(line) - start_ms(line)) && in_i64(dur_us(line))
}

/// Every record line that parsing reaches (one with no bad line before it)
/// fits.
pub open spec fn reached_records_fit(ls: Seq<Seq<char>>) -> bool
    decreases ls.len(),
{
    if ls.len() == 0 {
        true
    } else {
        &&& reached_records_fit(ls.drop_last())
        &&& (log_records(ls.drop_last()) is Some && is_record_line(ls.last())) ==> record_fits(
            ls.last(),
        )
    }
}

/// Every record's end (`end_ms * 1000`) fits.
pub open spec fn record_ends_fit(rs: Seq<Seq<char>>) -> bool {
    forall|i: int| 0 <= i < rs.len() ==> in_i64(end_ms(#[trigger] rs[i]) * 1000)
}

/// Parsing the lines stays within `i64` arithmetic: every record that is
/// reached before a bad line fits, and when the whole log parses, every
/// step's end fits as well, which lane packing computes.
pub open spec fn log_arithmetic_fits(ls: Seq<Seq<char>>) -> bool {
    &&& reached_records_fit(ls)
    &&& log_records(ls) matches Some(rs) ==> record_ends_fit(rs)
}

proof fn lemma_reached_prefix(ls: Seq<Seq<char>>, k: int)
    requires
        0 <= k <= ls.len(),
        reached_records_fit(ls),
    ensures
        reached_records_fit(ls.take(k)),
    decreases ls.len() - k,
{
    if k < ls.len() {
        assert(ls.take(k + 1).drop_last() =~= ls.take(k));
        lemma_reached_prefix(ls, k + 1);
    } else {
        assert(ls.take(k) =~= ls);
    }
}

/// Lines after a bad line are never reached.
proof fn lemma_reached_after_bad(ls: Seq<Seq<char>>, k: int)
    requires
        0 <= k <= ls.len(),
        log_records(ls.take(k)) is None,
    ensures
        reached_records_fit(ls) == reached_records_fit(ls.take(k)),
    decreases ls.len() - k,
{
    if k < ls.len() {
        assert(ls.take(k + 1).drop_last() =~= ls.take(k));
        lemma_reached_after_bad(ls, k + 1);
    } else {
        assert(ls.take(k) =~= ls);
    }
}

/// The log can be parsed without leaving `i64` arithmetic.
pub open spec fn log_in_range(input: Seq<u8>) -> bool {
    valid_utf8(input) ==> log_arithmetic_fits(log_lines(input))
}

/// The category ninja's output name implies: object files (`.o`, `.obj`)
/// are compiles, anything else is a link.
pub open spec fn output_category(output: Seq<char>) -> Category {
    let base = split_on(output, '/').last();
    let ext = split_on(base, '.').last();
    if ext == "o"@ || ext == "obj"@ {
        Category::Compile
    } else {
        Category::Link
    }
}

/// `s` is the (not yet lane-packed) span that the record `line` describes.
pub open spec fn is_record_span(s: Span, line: Seq<char>) -> bool {
    &&& s.name@ == line_output(line)
    &&& s.category == output_category(line_output(line))
    &&& s.status == Status::Success
    &&& s.track@ == "ninja"@
    &&& s.start_us == start_us(line)
    &&& s.dur_us == dur_us(line)
    &&& s.args@ == Map::<Seq<char>, String>::empty()
}

/// The start and duration of each record, in microseconds.
pub open spec fn record_timings(rs: Seq<Seq<char>>) -> Seq<(i64, i64)> {
    rs.map_values(|r: Seq<char>| (start_us(r) as i64, dur_us(r) as i64))
}

enum LogLine {
    Ignored,
    Bad(NumberError),
    Record { start: i64, end: i64, output: Vec<char> },
}

fn read_line(line: &[char]) -> (r: LogLine)
    ensures
        r is Ignored <==> is_ignored_line(line@),
        r is Bad <==> is_bad_line(line@),
        r matches LogLine::Bad(e) ==> e == line_error(line@),
        r matches LogLine::Record { start, end, output } ==> is_record_line(line@) && line_start(
            line@,
        ) == Some(start) && line_end(line@) == Some(end) && output@ == line_output(line@),
{
    if line.len() == 0 || line[0] == '#' {
        return LogLine::Ignored;
    }
    let f = split_chars(line, '\t');
    if f.len() < 5 {
        return LogLine::Ignored;
    }
    proof {
        assert(views(f@)[0] == f@[0]@);
        assert(views(f@)[1] == f@[1]@);
        assert(views(f@)[3] == f@[3]@);
    }
    let start = parse_i64_chars(f[0].as_slice());
    let end = parse_i64_chars(f[1].as_slice());
    match (start, end) {
        (Err(e), _) => LogLine::Bad(e),
        (Ok(_), Err(e)) => LogLine::Bad(e),
        (Ok(start), Ok(end)) => {
            let output = sub_chars(f[3].as_slice(), 0, f[3].len());
            proof {
                assert(f@[3]@.subrange(0, f@[3]@.len() as int) =~= f@[3]@);
            }
            LogLine::Record { start, end, output }
        },
    }
}

/// The last piece of `s` after splitting at `sep`.
fn last_piece(s: &[char], sep: char) -> (r: Vec<char>)
    ensures
        r@ == split_on(s@, sep).last(),
{
    let mut pieces = split_chars(s, sep);
    proof {
        assert(split_on(s@, sep).len() > 0) by {
            lemma_split_nonempty(s@, sep);
        }
        assert(views(pieces@).last() == pieces@.last()@);
    }
    let r = pieces.pop();
    match r {
        Some(v) => v,
        None => Vec::new(),
    }
}

/// Splitting always yields at least one piece.
proof fn lemma_split_nonempty(s: Seq<char>, sep: char)
    ensures
        split_on(s, sep).len() > 0,
{
}

/// The category of a step from its output name.
fn output_category_exec(output: &[char]) -> (c: Category)
    ensures
        c == output_category(output@),
{
    let base = last_piece(output, '/');
    let ext = last_piece(base.as_slice(), '.');
    let o = chars_of("o");
    let obj = chars_of("obj");
    if chars_eq(ext.as_slice(), o.as_slice()) || chars_eq(ext.as_slice(), obj.as_slice()) {
        Category::Compile
    } else {
        Category::Link
    }
}

/// The first bad line's error is the log's.
proof fn lemma_fault_stays(ls: Seq<Seq<char>>, k: int)
    requires
        0 <= k <= ls.len(),
        log_fault(ls.take(k)) is Some,
    ensures
        log_fault(ls) == log_fault(ls.take(k)),
    decreases ls.len() - k,
{
    if k < ls.len() {
        assert(ls.take(k + 1).drop_last() =~= ls.take(k));
        lemma_fault_stays(ls, k + 1);
    } else {
        assert(ls.take(k) =~= ls);
    }
}

/// A bad line makes every longer log fail too.
proof fn lemma_records_stay_none(ls: Seq<Seq<char>>, k: int)
    requires
        0 <= k <= ls.len(),
        log_records(ls.take(k)) is None,
    ensures
        log_records(ls) is None,
    decreases ls.len() - k,
{
    if k < ls.len() {
        assert(ls.take(k + 1).drop_last() =~= ls.take(k));
        lemma_records_stay_none(ls, k + 1);
    } else {
        assert(ls.take(k) =~= ls);
    }
}

impl Ninja {
    /// The adapter's id, which is also the default track name.
    pub fn name(&self) -> (r: &'static str)
        ensures
            r@ == "ninja"@,
    {
        "ninja"
    }

    /// Parse `.ninja_log` bytes into spans whose `start_us` is relative to
    /// ninja's start. Header, comment, empty and short lines are skipped; a
    /// record whose start or end is not an integer fails the parse. The
    /// spans come out in log order, lane-packed.
    pub fn parse(&self, input: &[u8]) -> (r: Result<Vec<Span>, ParseError>)
        requires
            log_in_range(input@),
        ensures
            !valid_utf8(input@) ==> r == Err::<Vec<Span>, ParseError>(utf8_error(input@)),
            valid_utf8(input@) && log_records(log_lines(input@)) is None ==> r == Err::<
                Vec<Span>,
                ParseError,
            >(ParseError::InvalidNumber(log_fault(log_lines(input@))->0)),
            valid_utf8(input@) && log_records(log_lines(input@)) is Some ==> r is Ok,
            r matches Ok(spans) ==> {
                let rs = log_records(log_lines(input@))->0;
                &&& spans@.len() == rs.len()
                &&& forall|i: int|
                    0 <= i < rs.len() ==> is_record_span(#[trigger] spans@[i], rs[i])
                        && spans@[i].lane == packed_lane(record_timings(rs), i) as u32
            },
    {
        let text = match decode_text(input) {
            Ok(t) => t,
            Err(f) => {
                return Err(ParseError::InvalidUtf8 { valid_up_to: f.0, error_len: f.1 });
            },
        };
        let ls = split_lines(text.as_slice());
        let ghost lsv = views(ls@);
        assert(lsv == log_lines(input@));
        let mut spans: Vec<Span> = Vec::new();
        let mut k: usize = 0;
        assert(lsv.take(0) =~= Seq::<Seq<char>>::empty());
        while k < ls.len()
            invariant
                valid_utf8(input@),
                lsv == views(ls@),
                lsv == log_lines(input@),
                log_arithmetic_fits(lsv),
                k <= ls@.len(),
                log_records(lsv.take(k as int)) is Some,
                log_fault(lsv.take(k as int)) is None,
                spans@.len() == log_records(lsv.take(k as int))->0.len(),
                forall|i: int|
                    0 <= i < spans@.len() ==> is_record_span(
                        #[trigger] spans@[i],
                        log_records(lsv.take(k as int))->0[i],
                    ),
            decreases ls@.len() - k,
        {
            let ghost rs = log_records(lsv.take(k as int))->0;
            proof {
                assert(lsv.take(k + 1).drop_last() =~= lsv.take(k as int));
                assert(lsv.take(k + 1).last() == lsv[k as int]);
                assert(lsv[k as int] == ls@[k as int]@);
            }
            match read_line(ls[k].as_slice()) {
                LogLine::Ignored => {},
                LogLine::Bad(e) => {
                    proof {
                        lemma_records_stay_none(lsv, k + 1);
                        lemma_fault_stays(lsv, k + 1);
                    }
                    return Err(ParseError::InvalidNumber(e));
                },
                LogLine::Record { start, end, output } => {
                    let ghost line = lsv[k as int];
                    proof {
                        lemma_reached_prefix(lsv, k + 1);
                    }
                    assert(record_fits(line));
                    let start_us = start * 1000;
                    let dur_us = (end - start) * 1000;
                    let category = output_category_exec(output.as_slice());
                    let span = Span {
                        name: string_from_chars(output.as_slice()),
                        category,
                        status: Status::Success,
                        track: "ninja".to_owned(),
                        lane: 0,
                        start_us,
                        dur_us,
                        args: TextMap::new(),
                    };
                    proof {
                        reveal_strlit("ninja");
                    }
                    spans.push(span);
                    proof {
                        let rs2 = log_records(lsv.take(k + 1))->0;
                        assert(rs2 == rs.push(line));
                        assert forall|i: int| 0 <= i < spans@.len() implies is_record_span(
                            #[trigger] spans@[i],
                            rs2[i],
                        ) by {
                            if i < rs.len() {
                                assert(rs2[i] == rs[i]);
                            }
                        }
                    }
                },
            }
            k = k + 1;
        }
        let ghost rs = log_records(lsv)->0;
        proof {
            assert(lsv.take(k as int) =~= lsv);
            assert(timings(spans@) =~= record_timings(rs));
            assert forall|i: int| 0 <= i < spans@.len() implies i64::MIN <= #[trigger] interval_end(
                timings(spans@)[i],
            ) <= i64::MAX by {
                assert(is_record_span(spans@[i], rs[i]));
                assert(in_i64(end_ms(rs[i]) * 1000));
            }
            assert(ends_fit(timings(spans@)));
        }
        let ghost unpacked = spans@;
        pack_lanes(spans.as_mut_slice());
        proof {
            assert forall|i: int| 0 <= i < rs.len() implies is_record_span(#[trigger] spans@[i], rs[i])
                && spans@[i].lane == packed_lane(record_timings(rs), i) as u32 by {
                assert(spans@[i] == with_lane(unpacked[i], packed_lane(timings(unpacked), i) as u32));
                assert(is_record_span(unpacked[i], rs[i]));
            }
        }
        Ok(spans)
    }

    /// Whether parsing `input` stays within `i64` arithmetic (what `parse`
    /// requires): every record reached before a malformed one has a start,
    /// difference and duration that fit, and, when the log parses, every end.
    pub fn log_in_range(&self, input: &[u8]) -> (r: bool)
        ensures
            r == log_in_range(input@),
    {
        let text = match decode_text(input) {
            Ok(t) => t,
            Err(_) => {
                return true;
            },
        };
        let ls = split_lines(text.as_slice());
        let ghost lsv = views(ls@);
        assert(lsv == log_lines(input@));
        let mut fits = true;
        let mut ends_fit_so_far = true;
        let mut k: usize = 0;
        let ghost mut rs: Seq<Seq<char>> = seq![];
        assert(lsv.take(0) =~= Seq::<Seq<char>>::empty());
        while k < ls.len()
            invariant
                lsv == views(ls@),
                lsv == log_lines(input@),
                valid_utf8(input@),
                k <= ls@.len(),
                log_records(lsv.take(k as int)) == Some(rs),
                fits == reached_records_fit(lsv.take(k as int)),
                ends_fit_so_far == record_ends_fit(rs),
            decreases ls@.len() - k,
        {
            proof {
                assert(lsv.take(k + 1).drop_last() =~= lsv.take(k as int));
                assert(lsv.take(k + 1).last() == lsv[k as int]);
                assert(lsv[k as int] == ls@[k as int]@);
            }
            let ghost line = lsv[k as int];
            match read_line(ls[k].as_slice()) {
                LogLine::Ignored => {},
                LogLine::Bad(_) => {
                    proof {
                        lemma_records_stay_none(lsv, k + 1);
                        lemma_reached_after_bad(lsv, k + 1);
                    }
                    return fits;
                },
                LogLine::Record { start, end, output } => {
                    let s = start as i128;
                    let e = end as i128;
                    let line_fits = i64::MIN as i128 <= s * 1000 && s * 1000 <= i64::MAX as i128
                        && i64::MIN as i128 <= e - s && e - s <= i64::MAX as i128 && i64::MIN as i128
                        <= (e - s) * 1000 && (e - s) * 1000 <= i64::MAX as i128;
                    let end_fits = i64::MIN as i128 <= e * 1000 && e * 1000 <= i64::MAX as i128;
                    proof {
                        let rs2 = rs.push(line);
                        assert(line_fits == record_fits(line));
                        assert(log_records(lsv.take(k + 1)) == Some(rs2));
                        assert(record_ends_fit(rs2) == (ends_fit_so_far && end_fits)) by {
                            if !ends_fit_so_far {
                                let i = choose|i: int|
                                    !(0 <= i < rs.len() ==> in_i64(end_ms(#[trigger] rs[i]) * 1000));
                                assert(rs2[i] == rs[i]);
                            }
                            assert(rs2[rs.len() as int] == line);
                            if ends_fit_so_far && end_fits {
                                assert forall|i: int| 0 <= i < rs2.len() implies in_i64(
                                    end_ms(#[trigger] rs2[i]) * 1000,
                                ) by {
                                    if i < rs.len() {
                                        assert(rs2[i] == rs[i]);
                                    }
                                }
                            }
                        }
                        rs = rs2;
                    }
                    fits = fits && line_fits;
                    ends_fit_so_far = ends_fit_so_far && end_fits;
                },
            }
            k = k + 1;
        }
        proof {
            assert(lsv.take(k as int) =~= lsv);
        }
        fits && ends_fit_so_far
    }
}

/// `output` ends in the extension `ext` ("o" or "obj"): it is `ext` itself,
/// or ends with `.ext` or `/ext`.
pub open spec fn ends_in_ext(output: Seq<char>, ext: Seq<char>) -> bool {
    ||| output == ext
    ||| {
        &&& output.len() > ext.len()
        &&& output.subrange(output.len() - ext.len(), output.len() as int) == ext
        &&& (output[output.len() - ext.len() - 1] == '.' || output[output.len() - ext.len() - 1]
            == '/')
    }
}

/// An output that ends in `ext` (which holds no `.` or `/`) has `ext` as the
/// extension of its base name.
proof fn lemma_ext_from_suffix(output: Seq<char>, ext: Seq<char>)
    requires
        ext.len() > 0,
        forall|k: int| 0 <= k < ext.len() ==> ext[k] != '.' && ext[k] != '/',
        ends_in_ext(output, ext),
    ensures
        split_on(split_on(output, '/').last(), '.').last() == ext,
{
    lemma_split_last(output, '/');
    let base = split_on(output, '/').last();
    lemma_split_last(base, '.');
    let n = output.len();
    let m = ext.len();
    if output == ext {
        assert(output.subrange(0, n as int) =~= output);
        assert(is_last_piece(output, '/', ext));
        lemma_last_piece_unique(output, '/', base, ext);
        assert(base.subrange(0, m as int) =~= base);
        assert(is_last_piece(base, '.', ext));
        lemma_last_piece_unique(base, '.', split_on(base, '.').last(), ext);
    } else if output[n - m - 1] == '/' {
        assert(is_last_piece(output, '/', ext));
        lemma_last_piece_unique(output, '/', base, ext);
        assert(base.subrange(0, m as int) =~= base);
        assert(is_last_piece(base, '.', ext));
        lemma_last_piece_unique(base, '.', split_on(base, '.').last(), ext);
    } else {
        // The base holds the `.` before the extension: nothing after it is `/`.
        if base.len() < m + 1 {
            let c = n - base.len() - 1;
            assert(output[c] == '/');
            if c == n - m - 1 {
            } else {
                assert(output[c] == ext[c - (n - m)]);
            }
        }
        let b = base.len();
        assert(base[b - m - 1] == output[n - m - 1]);
        assert(base.subrange(b - m, b as int) =~= ext) by {
            assert forall|k: int| 0 <= k < m implies base[b - m + k] == ext[k] by {
                assert(base[b - m + k] == output[n - m + k]);
                assert(output.subrange(n - m, n as int)[k] == output[n - m + k]);
            }
        }
        assert(is_last_piece(base, '.', ext));
        lemma_last_piece_unique(base, '.', split_on(base, '.').last(), ext);
    }
}

/// How ninja's outputs are classified: an output is a compile exactly when
/// the text after the last `.` of its base name (the text after its last
/// `/`) is `o` or `obj`, that is when it is `o` or `obj` itself or ends with
/// `.o`, `/o`, `.obj` or `/obj`; every other output (a `.a`, a `.so`, a
/// binary with no extension) is a link.
pub proof fn lemma_output_category(output: Seq<char>)
    ensures
        output_category(output) == Category::Compile <==> (ends_in_ext(output, "o"@)
            || ends_in_ext(output, "obj"@)),
        output_category(output) == Category::Compile || output_category(output)
            == Category::Link,
{
    reveal_strlit("o");
    reveal_strlit("obj");
    let o = "o"@;
    let obj = "obj"@;
    if ends_in_ext(output, o) {
        lemma_ext_from_suffix(output, o);
    }
    if ends_in_ext(output, obj) {
        lemma_ext_from_suffix(output, obj);
    }
    lemma_split_last(output, '/');
    let base = split_on(output, '/').last();
    lemma_split_last(base, '.');
    let e = split_on(base, '.').last();
    if e == o || e == obj {
        let n = output.len();
        let b = base.len();
        let m = e.len();
        assert forall|k: int| 0 <= k < m implies output[n - m + k] == e[k] by {
            assert(base[b - m + k] == e[k]);
            assert(output[n - b + (b - m + k)] == base[b - m + k]);
        }
        assert(output.subrange(n - m, n as int) =~= e);
        if m < b {
            assert(output[n - m - 1] == base[b - m - 1]);
        } else if b < n {
            assert(output[n - b - 1] == '/');
        } else {
            assert(output =~= e);
        }
    }
}

} // verus!
