use buildline::lane::pack_lanes;
use buildline::span::{Category, Span};
use buildline::wrapper::demo_span;

fn span(name: &str, start: i64, dur: i64) -> Span {
    demo_span(name, Category::Compile, "t", 99, start, dur)
}

fn lanes(spans: &[Span]) -> Vec<u32> {
    spans.iter().map(|s| s.lane).collect()
}

#[test]
fn overlapping_work_lands_on_separate_lanes() {
    let mut spans = vec![span("a", 0, 10), span("b", 5, 10), span("c", 7, 1)];
    pack_lanes(&mut spans);
    assert_eq!(lanes(&spans), vec![0, 1, 2]);
}

#[test]
fn sequential_work_reuses_a_lane() {
    let mut spans = vec![span("a", 0, 10), span("b", 10, 5), span("c", 15, 5)];
    pack_lanes(&mut spans);
    assert_eq!(lanes(&spans), vec![0, 0, 0]);
}

#[test]
fn lowest_free_lane_is_chosen_in_start_order() {
    // Out of input order: packing goes by start time, the slice order stays.
    let mut spans = vec![span("late", 20, 5), span("early", 0, 30), span("mid", 10, 5)];
    pack_lanes(&mut spans);
    assert_eq!(spans[0].name, "late");
    assert_eq!(lanes(&spans), vec![1, 0, 1]);
}

#[test]
fn equal_starts_keep_input_order() {
    let mut spans = vec![span("x", 0, 5), span("y", 0, 5), span("z", 5, 1)];
    pack_lanes(&mut spans);
    assert_eq!(lanes(&spans), vec![0, 1, 0]);
}

#[test]
fn packing_changes_only_lanes() {
    let mut spans = vec![span("a", 3, 4), span("b", 1, 1)];
    pack_lanes(&mut spans);
    assert_eq!(spans[0].name, "a");
    assert_eq!(spans[0].start_us, 3);
    assert_eq!(spans[0].dur_us, 4);
    assert_eq!(spans[1].start_us, 1);
    assert_eq!(lanes(&spans), vec![0, 0]);
}

#[test]
fn packing_empty_slice() {
    let mut spans: Vec<Span> = Vec::new();
    pack_lanes(&mut spans);
    assert!(spans.is_empty());
}

#[test]
fn no_two_spans_on_one_lane_overlap() {
    let mut spans = vec![
        span("a", 0, 100),
        span("b", 0, 150),
        span("c", 100, 140),
        span("d", 120, 10),
        span("e", 240, 140),
        span("f", 130, 200),
    ];
    pack_lanes(&mut spans);
    for i in 0..spans.len() {
        for j in 0..spans.len() {
            if i != j && spans[i].lane == spans[j].lane {
                let (a, b) = (&spans[i], &spans[j]);
                assert!(a.start_us + a.dur_us <= b.start_us || b.start_us + b.dur_us <= a.start_us);
            }
        }
    }
    assert!(spans.iter().all(|s| (s.lane as usize) < spans.len()));
}

#[test]
fn packing_twice_gives_the_same_lanes() {
    let mut spans = vec![span("a", 0, 10), span("b", 5, 10), span("c", 12, 3), span("d", 16, 1)];
    pack_lanes(&mut spans);
    let first = lanes(&spans);
    assert_eq!(first, vec![0, 1, 0, 0]);
    pack_lanes(&mut spans);
    assert_eq!(lanes(&spans), first);
}

#[test]
fn each_lower_lane_is_busy_at_a_spans_start() {
    // "d" starts at 8: lane 0 is held by "a" (until 10), lane 1 is free again
    // ("b" ended at 6), so "d" takes lane 1 and every lane below it is busy.
    let mut spans = vec![span("a", 0, 10), span("b", 1, 5), span("c", 2, 20), span("d", 8, 1)];
    pack_lanes(&mut spans);
    assert_eq!(lanes(&spans), vec![0, 1, 2, 1]);
    for (i, s) in spans.iter().enumerate() {
        for lower in 0..s.lane {
            assert!(spans.iter().enumerate().any(|(j, t)| j != i
                && t.lane == lower
                && t.start_us <= s.start_us
                && t.start_us + t.dur_us > s.start_us));
        }
    }
}
