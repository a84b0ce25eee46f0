use buildline::chrome_trace::{to_chrome_trace, TraceEvent};
use buildline::session::Session;
use buildline::span::{Category, Status};
use buildline::wrapper::{capture_events, demo_span, demo_spans, maybe_inject_timings, Tool};

fn strings(args: &[&str]) -> Vec<String> {
    args.iter().map(|a| a.to_string()).collect()
}

#[test]
fn timings_injected_for_cargo_build_commands() {
    for sub in ["build", "check", "test", "bench"] {
        assert_eq!(
            maybe_inject_timings("cargo", &strings(&[sub, "--release"])),
            Some(vec!["--timings".to_string()])
        );
    }
}

#[test]
fn timings_not_injected_otherwise() {
    assert_eq!(maybe_inject_timings("ninja", &strings(&["build"])), None);
    assert_eq!(maybe_inject_timings("cargo", &strings(&[])), None);
    assert_eq!(maybe_inject_timings("cargo", &strings(&["run"])), None);
    assert_eq!(maybe_inject_timings("cargo", &strings(&["build", "--timings"])), None);
    assert_eq!(maybe_inject_timings("cargo", &strings(&["build", "--timings=html"])), None);
    assert_eq!(maybe_inject_timings("cargo", &strings(&["--timings", "build"])), None);
}

#[test]
fn timings_injection_is_idempotent() {
    let mut args = strings(&["test"]);
    let extra = maybe_inject_timings("cargo", &args).unwrap();
    args.extend(extra);
    assert_eq!(maybe_inject_timings("cargo", &args), None);
}

#[test]
fn tools_and_artifacts() {
    assert_eq!(Tool::for_track("ninja"), Some(Tool::Ninja));
    assert_eq!(Tool::for_track("cargo"), Some(Tool::Cargo));
    assert_eq!(Tool::for_track("make"), None);
    assert_eq!(Tool::Ninja.artifact_path(), ".ninja_log");
    assert_eq!(Tool::Cargo.artifact_path(), "target/cargo-timings/cargo-timing.html");
}

#[test]
fn capture_places_spans_and_names_new_track_once() {
    let mut session = Session::anchored_at(1_000_000);
    let mut spans = vec![demo_span("obj/a.o", Category::Compile, "ninja", 0, 0, 100)];
    let events = capture_events(&mut session, "ninja", 1_250_000, &mut spans);
    assert_eq!(spans[0].start_us, 250_000);
    assert_eq!(events.len(), 2);
    assert!(matches!(&events[0], TraceEvent::ProcessName { pid: 0, track } if track == "ninja"));
    assert!(matches!(&events[1], TraceEvent::Complete { pid: 0, ts: 250_000, .. }));

    let mut again = vec![demo_span("obj/b.o", Category::Compile, "ninja", 0, 5, 1)];
    let events = capture_events(&mut session, "ninja", 2_000_000, &mut again);
    assert_eq!(again[0].start_us, 1_000_005);
    assert_eq!(events.len(), 1);
    assert!(matches!(&events[0], TraceEvent::Complete { pid: 0, .. }));

    let mut cargo = vec![demo_span("serde v1", Category::Compile, "cargo", 0, 0, 1)];
    let events = capture_events(&mut session, "cargo", 3_000_000, &mut cargo);
    assert_eq!(events.len(), 2);
    assert!(matches!(&events[0], TraceEvent::ProcessName { pid: 1, .. }));
    assert_eq!(session.next_pid(), 2);
}

#[test]
fn demo_has_two_tracks_with_a_gap() {
    let spans = demo_spans();
    assert_eq!(spans.len(), 8);
    assert_eq!(spans[0].name, "obj/a.o");
    assert_eq!(spans[1].lane, 1);
    assert_eq!(spans[3].start_us, 260_000);
    assert!(spans[3].category == Category::Link);
    assert_eq!(spans[4].name, "fetch crates.io index");
    assert_eq!(spans[4].start_us, 3_000_000);
    assert!(spans[4].category == Category::Download);
    assert_eq!(spans[7].start_us, 5_400_000);
    assert!(spans.iter().all(|s| s.status == Status::Success));
    let trace = to_chrome_trace(&spans);
    assert_eq!(trace.events.len(), 10);
}
