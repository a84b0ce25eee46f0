use buildline::adapters::ninja::Ninja;
use buildline::appender::append_text;
use buildline::chrome_trace::{colour_of, process_name_event, span_event, to_chrome_trace, TraceEvent};
use buildline::span::{Category, Status};
use buildline::wrapper::demo_span;

#[test]
fn chrome_trace_assigns_pids_by_first_appearance() {
    let spans = vec![
        demo_span("b1", Category::Compile, "beta", 0, 0, 1),
        demo_span("a1", Category::Link, "alpha", 1, 2, 3),
        demo_span("b2", Category::Test, "beta", 0, 4, 5),
    ];
    let trace = to_chrome_trace(&spans);
    assert_eq!(trace.display_time_unit, "ms");
    assert_eq!(trace.events.len(), 5);
    match &trace.events[0] {
        TraceEvent::ProcessName { pid, track } => {
            assert_eq!(*pid, 0);
            assert_eq!(track, "beta");
        }
        _ => panic!("expected a process name event"),
    }
    match &trace.events[1] {
        TraceEvent::ProcessName { pid, track } => {
            assert_eq!(*pid, 1);
            assert_eq!(track, "alpha");
        }
        _ => panic!("expected a process name event"),
    }
    let pids: Vec<i64> = trace.events[2..]
        .iter()
        .map(|e| match e {
            TraceEvent::Complete { pid, .. } => *pid,
            _ => panic!("expected a complete event"),
        })
        .collect();
    assert_eq!(pids, vec![0, 1, 0]);
    match &trace.events[3] {
        TraceEvent::Complete { name, cat, ts, dur, tid, cname, .. } => {
            assert_eq!(name, "a1");
            assert_eq!(cat, "link");
            assert_eq!((*ts, *dur, *tid), (2, 3, 1));
            assert_eq!(*cname, None);
        }
        _ => panic!("expected a complete event"),
    }
}

#[test]
fn span_event_carries_status_and_args() {
    let mut s = demo_span("x", Category::Other("run-custom-build".to_string()), "cargo", 2, 7, 8);
    s.status = Status::Failed;
    s.args.insert("version".to_string(), "1.0".to_string());
    match span_event(&s, 3) {
        TraceEvent::Complete { cat, pid, cname, args, .. } => {
            assert_eq!(cat, "run-custom-build");
            assert_eq!(pid, 3);
            assert_eq!(cname, Some("terrible"));
            assert_eq!(args.get("status").map(|v| v.as_str()), Some("failed"));
            assert_eq!(args.get("version").map(|v| v.as_str()), Some("1.0"));
            assert_eq!(args.len(), 2);
        }
        _ => panic!("expected a complete event"),
    }
}

#[test]
fn span_args_override_status_key() {
    let mut s = demo_span("x", Category::Compile, "t", 0, 0, 0);
    s.args.insert("status".to_string(), "custom".to_string());
    match span_event(&s, 0) {
        TraceEvent::Complete { args, .. } => {
            assert_eq!(args.get("status").map(|v| v.as_str()), Some("custom"));
            assert_eq!(args.len(), 1);
        }
        _ => panic!("expected a complete event"),
    }
}

#[test]
fn colours_by_status() {
    assert_eq!(colour_of(&Status::Success), None);
    assert_eq!(colour_of(&Status::Failed), Some("terrible"));
    assert_eq!(colour_of(&Status::Incomplete), Some("bad"));
    assert_eq!(colour_of(&Status::Skipped), Some("grey"));
}

#[test]
fn process_name_event_names_pid() {
    match process_name_event("ninja", 4) {
        TraceEvent::ProcessName { pid, track } => {
            assert_eq!(pid, 4);
            assert_eq!(track, "ninja");
        }
        _ => panic!("expected a process name event"),
    }
}

#[test]
fn chrome_trace_of_ninja_log() {
    let log = "0\t100\t0\tobj/a.o\th\n0\t150\t0\tobj/b.o\th\n";
    let spans = Ninja.parse(log.as_bytes()).unwrap();
    let trace = to_chrome_trace(&spans);
    assert_eq!(trace.events.len(), 3);
    match &trace.events[2] {
        TraceEvent::Complete { name, tid, pid, .. } => {
            assert_eq!(name, "obj/b.o");
            assert_eq!(*tid, 1);
            assert_eq!(*pid, 0);
        }
        _ => panic!("expected a complete event"),
    }
}

#[test]
fn appended_text_frames_an_open_array() {
    let events = vec!["{\"a\":1}".to_string(), "{\"b\":2}".to_string()];
    assert_eq!(append_text(true, &events), "[\n  {\"a\":1},\n  {\"b\":2},\n");
    assert_eq!(append_text(false, &events[1..]), "  {\"b\":2},\n");
    assert_eq!(append_text(true, &[]), "[\n");
    let joined = append_text(true, &events[..1]) + &append_text(false, &events[1..]);
    assert_eq!(joined, append_text(true, &events));
}
