use buildline::session::Session;
use buildline::span::Category;
use buildline::text_map::TextMap;
use buildline::wrapper::demo_span;

#[test]
fn pid_for_is_stable_and_never_reused() {
    let mut s = Session::anchored_at(1_000);
    assert!(s.is_new_track("ninja"));
    assert_eq!(s.pid_for("ninja"), 0);
    assert!(!s.is_new_track("ninja"));
    assert_eq!(s.pid_for("cargo"), 1);
    assert_eq!(s.pid_for("ninja"), 0);
    assert_eq!(s.pid_for("cargo"), 1);
    assert_eq!(s.next_pid(), 2);
    assert_eq!(s.track_pid().len(), 2);
}

#[test]
fn next_pid_continues_from_a_stored_session() {
    let mut pids = TextMap::new();
    pids.insert("ninja".to_string(), 4);
    let mut s = Session::from_parts(0, TextMap::new(), pids, 7);
    assert_eq!(s.pid_for("ninja"), 4);
    assert_eq!(s.pid_for("bazel"), 7);
    assert_eq!(s.next_pid(), 8);
}

#[test]
fn record_start_is_relative_to_epoch_and_latest_wins() {
    let mut s = Session::anchored_at(1_000_000);
    s.record_start("cargo", 1_500_000);
    assert_eq!(s.track_t0_us().get("cargo"), Some(&500_000));
    s.record_start("cargo", 4_000_000);
    assert_eq!(s.track_t0_us().get("cargo"), Some(&3_000_000));
    assert_eq!(s.track_t0_us().len(), 1);
    assert_eq!(s.epoch_unix_us(), 1_000_000);
}

#[test]
fn place_offsets_by_track_start_only() {
    let mut s = Session::default();
    assert_eq!(s.epoch_unix_us(), 0);
    s.record_start("cargo", 3_000_000);
    let mut spans = vec![
        demo_span("compile app", Category::Compile, "cargo", 0, 2_400_000, 600_000),
        demo_span("obj/a.o", Category::Compile, "ninja", 0, 10, 5),
    ];
    s.place(&mut spans);
    assert_eq!(spans[0].start_us, 5_400_000);
    assert_eq!(spans[0].dur_us, 600_000);
    assert_eq!(spans[1].start_us, 10);
}

#[test]
fn default_session_is_empty() {
    let s = Session::default();
    assert_eq!(s.next_pid(), 0);
    assert_eq!(s.track_t0_us().len(), 0);
    assert_eq!(s.track_pid().len(), 0);
}

#[test]
fn stored_counter_below_a_stored_pid_resumes_above_it() {
    let mut pids = TextMap::new();
    pids.insert("ninja".to_string(), 4);
    let mut s = Session::from_parts(0, TextMap::new(), pids, 0);
    assert_eq!(s.next_pid(), 5);
    assert_eq!(s.pid_for("bazel"), 5);
    assert_eq!(s.pid_for("ninja"), 4);
    assert_eq!(s.next_pid(), 6);
}

#[test]
fn stored_pid_at_the_limit_saturates_the_counter() {
    let mut pids = TextMap::new();
    pids.insert("ninja".to_string(), i64::MAX);
    let mut s = Session::from_parts(0, TextMap::new(), pids, 3);
    assert_eq!(s.next_pid(), i64::MAX);
    assert!(!s.is_new_track("ninja"));
    assert_eq!(s.pid_for("ninja"), i64::MAX);
}

#[test]
fn text_map_clone_keeps_every_entry() {
    let mut m = TextMap::new();
    m.insert("a".to_string(), 1i64);
    m.insert("b".to_string(), 2i64);
    let c = m.clone();
    assert_eq!(c.len(), 2);
    assert_eq!(c.get("a"), Some(&1));
    assert_eq!(c.get("b"), Some(&2));
}

#[test]
fn span_and_category_clone() {
    let s = demo_span("compile app", Category::Compile, "cargo", 0, 2_400_000, 600_000);
    let t = s.clone();
    assert_eq!(t.name, s.name);
    assert_eq!(t.start_us, s.start_us);
    assert_eq!(t.category.clone(), Category::Compile);
}

#[test]
fn tracks_keep_distinct_pids() {
    let mut s = Session::anchored_at(0);
    let tracks = ["ninja", "cargo", "bazel", "ninja", "make"];
    let pids: Vec<i64> = tracks.iter().map(|t| s.pid_for(t)).collect();
    assert_eq!(pids, vec![0, 1, 2, 0, 3]);
    let mut held: Vec<i64> = s.track_pid().entries().iter().map(|(_, p)| *p).collect();
    held.sort();
    held.dedup();
    assert_eq!(held.len(), 4);
}
