//! The decisions of the `buildline` wrapper, which runs one build tool per
//! invocation and appends that tool's spans to a shared trace: which flag to
//! add to a cargo command, which artifact each tool leaves, how a captured
//! batch lands on the session clock, and the illustrative demo trace.
use crate::chrome_trace::{is_process_name_event, is_span_event, process_name_event, span_event, TraceEvent};
use crate::session::{assign_pid, placed_start, with_start, Session};
use crate::span::{Category, Span, Status};
use crate::text::{starts_with, str_eq, str_starts_with};
use crate::text_map::TextMap;
use vstd::prelude::*;

verus! {

/// The build tools that have an adapter.
#[derive(Debug, Clone, Copy, PartialEq, Eq, Structural)]
pub enum Tool {
    Ninja,
    Cargo,
}

/// The tool whose adapter reads a track's artifact.
pub open spec fn tool_of(track: Seq<char>) -> Option<Tool> {
    if track == "ninja"@ {
        Some(Tool::Ninja)
    } else if track == "cargo"@ {
        Some(Tool::Cargo)
    } else {
        None
    }
}

/// Where each tool leaves its profiling artifact, relative to the build's
/// working directory.
pub open spec fn artifact_path_of(tool: Tool) -> Seq<char> {
    match tool {
        Tool::Ninja => ".ninja_log"@,
        Tool::Cargo => "target/cargo-timings/cargo-timing.html"@,
    }
}

impl Tool {
    /// The tool that has an adapter for `track`, if any.
    pub fn for_track(track: &str) -> (r: Option<Tool>)
        ensures
            r == tool_of(track@),
    {
        if str_eq(track, "ninja") {
            Some(Tool::Ninja)
        } else if str_eq(track, "cargo") {
            Some(Tool::Cargo)
        } else {
            None
        }
    }

    /// The path of the tool's profiling artifact.
    pub fn artifact_path(&self) -> (r: &'static str)
        ensures
            r@ == artifact_path_of(*self),
    {
        match self {
            Tool::Ninja => ".ninja_log",
            Tool::Cargo => "target/cargo-timings/cargo-timing.html",
        }
    }
}

/// A cargo subcommand that accepts `--timings`.
pub open spec fn supports_timings(sub: Seq<char>) -> bool {
    sub == "build"@ || sub == "check"@ || sub == "test"@ || sub == "bench"@
}

/// An argument that already asks for timings.
pub open spec fn is_timings_flag(arg: Seq<char>) -> bool {
    arg == "--timings"@ || starts_with(arg, "--timings="@)
}

/// The argument texts.
pub open spec fn arg_texts(args: Seq<String>) -> Seq<Seq<char>> {
    args.map_values(|a: String| a@)
}

/// `--timings` is to be added: the tool is cargo, running a subcommand that
/// supports it, and the caller has not asked for timings already.
pub open spec fn injects_timings(tool: Seq<char>, rest: Seq<Seq<char>>) -> bool {
    &&& tool == "cargo"@
    &&& rest.len() > 0
    &&& supports_timings(rest[0])
    &&& !(exists|i: int| 0 <= i < rest.len() && is_timings_flag(#[trigger] rest[i]))
}

/// The extra flag to append to a cargo command so that it writes its timing
/// report: `Some(["--timings"])` for `cargo build|check|test|bench` without a
/// timings flag of its own, `None` otherwise.
pub fn maybe_inject_timings(tool: &str, rest_args: &[String]) -> (r: Option<Vec<String>>)
    ensures
        injects_timings(tool@, arg_texts(rest_args@)) ==> (r matches Some(v) && v@.len() == 1
            && v@[0]@ == "--timings"@),
        !injects_timings(tool@, arg_texts(rest_args@)) ==> r is None,
{
    proof {
        reveal_strlit("cargo");
        reveal_strlit("--timings");
        reveal_strlit("--timings=");
    }
    let ghost rest = arg_texts(rest_args@);
    if !str_eq(tool, "cargo") {
        return None;
    }
    if rest_args.len() == 0 {
        return None;
    }
    let sub = rest_args[0].as_str();
    assert(rest[0] == sub@);
    let supports = str_eq(sub, "build") || str_eq(sub, "check") || str_eq(sub, "test") || str_eq(
        sub,
        "bench",
    );
    let mut already = false;
    let mut i: usize = 0;
    while i < rest_args.len()
        invariant
            rest == arg_texts(rest_args@),
            i <= rest_args@.len(),
            already == (exists|j: int| 0 <= j < i && is_timings_flag(#[trigger] rest[j])),
        decreases rest_args@.len() - i,
    {
        let a = rest_args[i].as_str();
        assert(rest[i as int] == a@);
        let flag = str_eq(a, "--timings") || str_starts_with(a, "--timings=");
        proof {
            if already {
                let j = choose|j: int| 0 <= j < i && is_timings_flag(#[trigger] rest[j]);
                assert(0 <= j < i + 1 && is_timings_flag(rest[j]));
            }
            if flag {
                assert(0 <= i < i + 1 && is_timings_flag(rest[i as int]));
            }
            if !already && !flag {
                assert forall|j: int| 0 <= j < i + 1 implies !is_timings_flag(#[trigger] rest[j]) by {
                    if j < i {
                        assert(!(0 <= j < i && is_timings_flag(rest[j])));
                    }
                }
            }
        }
        already = already || flag;
        i = i + 1;
    }
    if supports && !already {
        Some(vec!["--timings".to_owned()])
    } else {
        None
    }
}

/// Once `--timings` has been added, asking again adds nothing: the injection
/// is idempotent.
pub proof fn lemma_injection_idempotent(tool: Seq<char>, rest: Seq<Seq<char>>)
    requires
        injects_timings(tool, rest),
    ensures
        !injects_timings(tool, rest.push("--timings"@)),
{
    let r2 = rest.push("--timings"@);
    assert(is_timings_flag(r2[rest.len() as int]));
}

/// `--timings` is added exactly where cargo accepts it and the caller has not
/// asked for timings: the tool is cargo, the subcommand is `build`, `check`,
/// `test` or `bench`, and no argument is `--timings` or starts with
/// `--timings=`. Any other tool or subcommand (`cargo clean`, `cargo run`,
/// `cargo doc`, ...) runs unchanged.
pub proof fn lemma_timings_only_where_cargo_accepts_them(tool: Seq<char>, rest: Seq<Seq<char>>)
    ensures
        injects_timings(tool, rest) <==> {
            &&& tool == "cargo"@
            &&& rest.len() > 0
            &&& (rest[0] == "build"@ || rest[0] == "check"@ || rest[0] == "test"@ || rest[0]
                == "bench"@)
            &&& forall|i: int|
                0 <= i < rest.len() ==> #[trigger] rest[i] != "--timings"@ && !(
                "--timings="@.len() <= rest[i].len() && rest[i].subrange(
                    0,
                    "--timings="@.len() as int,
                ) == "--timings="@)
        },
{
    if !injects_timings(tool, rest) && tool == "cargo"@ && rest.len() > 0 && (rest[0] == "build"@
        || rest[0] == "check"@ || rest[0] == "test"@ || rest[0] == "bench"@) {
        let i = choose|i: int| 0 <= i < rest.len() && is_timings_flag(#[trigger] rest[i]);
        assert(rest[i] == "--timings"@ || ("--timings="@.len() <= rest[i].len() && rest[i].subrange(
            0,
            "--timings="@.len() as int,
        ) == "--timings="@));
    }
}

/// `events` is the batch appended for one capture: the process-name event
/// first when the track is new, then each placed span on the track's pid.
pub open spec fn is_capture_batch(
    events: Seq<TraceEvent>,
    is_new: bool,
    track: Seq<char>,
    pid: i64,
    spans: Seq<Span>,
) -> bool {
    let head: int = if is_new { 1 } else { 0 };
    &&& events.len() == head + spans.len()
    &&& is_new ==> is_process_name_event(events[0], track, pid)
    &&& forall|i: int| 0 <= i < spans.len() ==> is_span_event(#[trigger] events[head + i], spans[i], pid)
}

/// Lay one tool's relative spans onto the session clock and produce the trace
/// events to append: record that `track` launched at
/// `wall_clock_start_unix_us`, give the track its stable pid, shift the spans
/// by their track's start, and emit a process-name event (only the first time
/// the track is seen) followed by one event per span.
pub fn capture_events(
    session: &mut Session,
    track: &str,
    wall_clock_start_unix_us: i64,
    spans: &mut [Span],
) -> (events: Vec<TraceEvent>)
    requires
        i64::MIN <= wall_clock_start_unix_us - old(session).epoch() <= i64::MAX,
        old(session).pids().contains_key(track@) || old(session).pid_counter() < i64::MAX,
        forall|i: int|
            0 <= i < old(spans)@.len() ==> i64::MIN <= #[trigger] placed_start(
                old(session).t0s().insert(
                    track@,
                    (wall_clock_start_unix_us - old(session).epoch()) as i64,
                ),
                old(spans)@[i].track@,
                old(spans)@[i].start_us,
            ) <= i64::MAX,
    ensures
        final(session).epoch() == old(session).epoch(),
        final(session).t0s() == old(session).t0s().insert(
            track@,
            (wall_clock_start_unix_us - old(session).epoch()) as i64,
        ),
        final(session).pids() == assign_pid(old(session).pids(), old(session).pid_counter(), track@).1,
        final(session).pid_counter() == assign_pid(
            old(session).pids(),
            old(session).pid_counter(),
            track@,
        ).2,
        final(spans)@.len() == old(spans)@.len(),
        forall|i: int|
            0 <= i < old(spans)@.len() ==> #[trigger] final(spans)@[i] == with_start(
                old(spans)@[i],
                placed_start(final(session).t0s(), old(spans)@[i].track@, old(spans)@[i].start_us)
                    as i64,
            ),
        is_capture_batch(
            events@,
            !old(session).pids().contains_key(track@),
            track@,
            assign_pid(old(session).pids(), old(session).pid_counter(), track@).0,
            final(spans)@,
        ),
{
    session.record_start(track, wall_clock_start_unix_us);
    let is_new = session.is_new_track(track);
    let pid = session.pid_for(track);
    session.place(spans);
    let mut events: Vec<TraceEvent> = Vec::new();
    if is_new {
        events.push(process_name_event(track, pid));
    }
    let ghost head: int = if is_new { 1 } else { 0 };
    let mut i: usize = 0;
    while i < spans.len()
        invariant
            head == (if is_new { 1int } else { 0int }),
            i <= spans@.len(),
            events@.len() == head + i,
            is_new ==> is_process_name_event(events@[0], track@, pid),
            forall|j: int| 0 <= j < i ==> is_span_event(#[trigger] events@[head + j], spans@[j], pid),
        decreases spans@.len() - i,
    {
        events.push(span_event(&spans[i], pid));
        i = i + 1;
    }
    events
}

/// A span with the given identity and timing, a successful status and no
/// arguments.
pub fn demo_span(
    name: &str,
    category: Category,
    track: &str,
    lane: u32,
    start_us: i64,
    dur_us: i64,
) -> (s: Span)
    ensures
        s.name@ == name@,
        s.category == category,
        s.status == Status::Success,
        s.track@ == track@,
        s.lane == lane,
        s.start_us == start_us,
        s.dur_us == dur_us,
        s.args@ == Map::<Seq<char>, String>::empty(),
{
    Span {
        name: name.to_owned(),
        category,
        status: Status::Success,
        track: track.to_owned(),
        lane,
        start_us,
        dur_us,
        args: TextMap::new(),
    }
}

/// The demo's spans before placement: (name, category, track, lane, start,
/// duration), ninja's four then cargo's four.
pub open spec fn demo_row(i: int) -> (Seq<char>, Category, Seq<char>, u32, i64, i64) {
    if i == 0 {
        ("obj/a.o"@, Category::Compile, "ninja"@, 0u32, 0i64, 120_000i64)
    } else if i == 1 {
        ("obj/b.o"@, Category::Compile, "ninja"@, 1u32, 0i64, 150_000i64)
    } else if i == 2 {
        ("obj/c.o"@, Category::Compile, "ninja"@, 0u32, 120_000i64, 140_000i64)
    } else if i == 3 {
        ("bin/app"@, Category::Link, "ninja"@, 0u32, 260_000i64, 140_000i64)
    } else if i == 4 {
        ("fetch crates.io index"@, Category::Download, "cargo"@, 0u32, 0i64, 900_000i64)
    } else if i == 5 {
        ("download serde v1.0"@, Category::Download, "cargo"@, 0u32, 900_000i64, 400_000i64)
    } else if i == 6 {
        ("compile serde v1.0"@, Category::Compile, "cargo"@, 0u32, 1_300_000i64, 1_100_000i64)
    } else {
        ("compile app"@, Category::Compile, "cargo"@, 0u32, 2_400_000i64, 600_000i64)
    }
}

/// The launch offset of each demo track: ninja at the session's zero, cargo
/// three seconds later.
pub open spec fn demo_offset(track: Seq<char>) -> int {
    if track == "cargo"@ {
        3_000_000
    } else {
        0
    }
}

/// `s` is demo row `i`, placed on the session clock.
pub open spec fn is_demo_span(s: Span, i: int) -> bool {
    let (name, category, track, lane, start, dur) = demo_row(i);
    &&& s.name@ == name
    &&& s.category == category
    &&& s.status == Status::Success
    &&& s.track@ == track
    &&& s.lane == lane
    &&& s.start_us == start + demo_offset(track)
    &&& s.dur_us == dur
    &&& s.args@ == Map::<Seq<char>, String>::empty()
}

/// An illustrative, synthetic two-tool build: four ninja steps starting at
/// the session's zero and four cargo steps (two downloads, two compiles)
/// launched three seconds later, all placed on one session clock.
pub fn demo_spans() -> (r: Vec<Span>)
    ensures
        r@.len() == 8,
        forall|i: int| 0 <= i < 8 ==> is_demo_span(#[trigger] r@[i], i),
{
    proof {
        reveal_strlit("ninja");
        reveal_strlit("cargo");
        reveal_strlit("obj/a.o");
        reveal_strlit("obj/b.o");
        reveal_strlit("obj/c.o");
        reveal_strlit("bin/app");
        reveal_strlit("fetch crates.io index");
        reveal_strlit("download serde v1.0");
        reveal_strlit("compile serde v1.0");
        reveal_strlit("compile app");
    }
    let mut ninja: Vec<Span> = Vec::new();
    ninja.push(demo_span("obj/a.o", Category::Compile, "ninja", 0, 0, 120_000));
    ninja.push(demo_span("obj/b.o", Category::Compile, "ninja", 1, 0, 150_000));
    ninja.push(demo_span("obj/c.o", Category::Compile, "ninja", 0, 120_000, 140_000));
    ninja.push(demo_span("bin/app", Category::Link, "ninja", 0, 260_000, 140_000));
    let mut cargo: Vec<Span> = Vec::new();
    cargo.push(demo_span("fetch crates.io index", Category::Download, "cargo", 0, 0, 900_000));
    cargo.push(demo_span("download serde v1.0", Category::Download, "cargo", 0, 900_000, 400_000));
    cargo.push(demo_span("compile serde v1.0", Category::Compile, "cargo", 0, 1_300_000, 1_100_000));
    cargo.push(demo_span("compile app", Category::Compile, "cargo", 0, 2_400_000, 600_000));
    let mut session = Session::default();
    session.record_start("ninja", 0);
    session.record_start("cargo", 3_000_000);
    assert("ninja"@ != "cargo"@) by {
        assert("ninja"@[0] != "cargo"@[0]);
    }
    session.place(ninja.as_mut_slice());
    session.place(cargo.as_mut_slice());
    let mut all = ninja;
    all.append(&mut cargo);
    all
}

/// The demo's rows keep packing's promise: two steps of one track on one lane
/// never overlap (one ends no later than the other starts), and a step sits
/// on lane `l` only while, on every lower lane, a step of its track that
/// started no later is still running.
pub proof fn lemma_demo_rows_are_packed(i: int, j: int, l: u32)
    requires
        0 <= i < 8,
        0 <= j < 8,
    ensures
        ({
            let (_, _, ti, li, si, di) = demo_row(i);
            let (_, _, tj, lj, sj, dj) = demo_row(j);
            i != j && ti == tj && li == lj ==> si + di <= sj || sj + dj <= si
        }),
        ({
            let (_, _, ti, li, si, di) = demo_row(i);
            l < li ==> exists|k: int|
                0 <= k < 8 && k != i && (#[trigger] demo_row(k)).2 == ti && demo_row(k).3 == l
                    && demo_row(k).4 <= si && demo_row(k).4 + demo_row(k).5 > si
        }),
{
    reveal_strlit("ninja");
    reveal_strlit("cargo");
    assert("ninja"@[0] != "cargo"@[0]);
    let (_, _, ti, li, si, di) = demo_row(i);
    if l < li {
        assert(i == 1);
        assert(demo_row(0).2 == ti);
    }
}

/// On the placed demo trace, too, two spans of one track on one lane never
/// overlap.
pub proof fn lemma_demo_spans_do_not_overlap(spans: Seq<Span>, i: int, j: int)
    requires
        spans.len() == 8,
        forall|k: int| 0 <= k < 8 ==> is_demo_span(#[trigger] spans[k], k),
        0 <= i < 8,
        0 <= j < 8,
        i != j,
        spans[i].track@ == spans[j].track@,
        spans[i].lane == spans[j].lane,
    ensures
        spans[i].start_us + spans[i].dur_us <= spans[j].start_us || spans[j].start_us
            + spans[j].dur_us <= spans[i].start_us,
{
    assert(is_demo_span(spans[i], i));
    assert(is_demo_span(spans[j], j));
    lemma_demo_rows_are_packed(i, j, 0);
}

} // verus!
