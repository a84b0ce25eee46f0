//! Spans as Chrome Trace Event Format events, the format that
//! `ui.perfetto.dev` and `chrome://tracing` open natively.
//!
//! Each span becomes a "Complete" (`ph: "X"`) event; each track becomes a
//! named process (`ph: "M"`, `process_name`); `status` drives a reserved
//! colour so failed and hung phases stand out. Writing the events out as JSON
//! is left to the caller.
use crate::span::{category_name, status_name, Span, Status};
use crate::text::str_eq;
use crate::text_map::{entries_map, TextMap};
use vstd::prelude::*;

verus! {

/// One trace event.
#[derive(Debug)]
pub enum TraceEvent {
    /// Labels a pid with its track's name in the viewer.
    ProcessName { pid: i64, track: String },
    /// One span on a pid's row `tid`.
    Complete {
        name: String,
        cat: String,
        ts: i64,
        dur: i64,
        pid: i64,
        tid: u32,
        /// A reserved colour name, when the status has one.
        cname: Option<&'static str>,
        args: TextMap<String>,
    },
}

/// A whole trace: its events and the unit the viewer shows times in.
#[derive(Debug)]
pub struct ChromeTrace {
    pub events: Vec<TraceEvent>,
    pub display_time_unit: &'static str,
}

/// The reserved colour of a status. `Success` keeps the viewer's default
/// colour, hashed from the name, so successful work still reads as distinct
/// blocks.
pub open spec fn colour_name(status: Status) -> Option<Seq<char>> {
    match status {
        Status::Success => None,
        Status::Failed => Some("terrible"@),
        Status::Incomplete => Some("bad"@),
        Status::Skipped => Some("grey"@),
    }
}

/// `e` is the metadata event naming `pid` after `track`.
pub open spec fn is_process_name_event(e: TraceEvent, track: Seq<char>, pid: i64) -> bool {
    e matches TraceEvent::ProcessName { pid: p, track: t } && p == pid && t@ == track
}

/// The event's arguments are the span's own, plus its status under `status`
/// unless the span's arguments already have that key.
pub open spec fn event_args(args: Map<Seq<char>, String>, s: Span) -> bool {
    &&& args.dom() == s.args@.dom().insert("status"@)
    &&& forall|k: Seq<char>| #[trigger] s.args@.contains_key(k) ==> args[k] == s.args@[k]
    &&& !s.args@.contains_key("status"@) ==> args["status"@]@ == status_name(s.status)
}

/// `e` is the Complete event of span `s` on `pid`.
pub open spec fn is_span_event(e: TraceEvent, s: Span, pid: i64) -> bool {
    match e {
        TraceEvent::Complete { name, cat, ts, dur, pid: p, tid, cname, args } => {
            &&& name@ == s.name@
            &&& cat@ == category_name(s.category)
            &&& ts == s.start_us
            &&& dur == s.dur_us
            &&& p == pid
            &&& tid == s.lane
            &&& match (cname, colour_name(s.status)) {
                (None, None) => true,
                (Some(c), Some(n)) => c@ == n,
                _ => false,
            }
            &&& event_args(args@, s)
        },
        _ => false,
    }
}

/// The distinct tracks of `spans`, in order of first appearance.
pub open spec fn first_seen_tracks(spans: Seq<Span>) -> Seq<Seq<char>>
    decreases spans.len(),
{
    if spans.len() == 0 {
        seq![]
    } else {
        let t = first_seen_tracks(spans.drop_last());
        if t.contains(spans.last().track@) {
            t
        } else {
            t.push(spans.last().track@)
        }
    }
}

/// The position of `track` among `tracks`.
pub open spec fn track_pid(tracks: Seq<Seq<char>>, track: Seq<char>) -> int {
    choose|i: int| 0 <= i < tracks.len() && tracks[i] == track
}

/// No text occurs twice.
pub open spec fn all_distinct(ts: Seq<Seq<char>>) -> bool {
    forall|i: int, j: int| 0 <= i < j < ts.len() ==> ts[i] != ts[j]
}

/// `trace` is what `to_chrome_trace(spans)` gives: one process-name event per
/// track, pids numbered by first appearance, then one Complete event per span
/// in order, on its track's pid.
pub open spec fn is_trace_of(events: Seq<TraceEvent>, spans: Seq<Span>) -> bool {
    let tracks = first_seen_tracks(spans);
    &&& events.len() == tracks.len() + spans.len()
    &&& forall|k: int|
        0 <= k < tracks.len() ==> is_process_name_event(#[trigger] events[k], tracks[k], k as i64)
    &&& forall|i: int|
        0 <= i < spans.len() ==> is_span_event(
            #[trigger] events[tracks.len() + i],
            spans[i],
            track_pid(tracks, spans[i].track@) as i64,
        )
}

/// The first-seen tracks are distinct, hold every span's track, and hold
/// nothing else.
pub proof fn lemma_first_seen_tracks(spans: Seq<Span>)
    ensures
        all_distinct(first_seen_tracks(spans)),
        forall|i: int| 0 <= i < spans.len() ==> first_seen_tracks(spans).contains(#[trigger] spans[i].track@),
        forall|k: int|
            0 <= k < first_seen_tracks(spans).len() ==> exists|i: int|
                0 <= i < spans.len() && #[trigger] first_seen_tracks(spans)[k] == spans[i].track@,
        first_seen_tracks(spans).len() <= spans.len(),
    decreases spans.len(),
{
    if spans.len() > 0 {
        let p = spans.drop_last();
        lemma_first_seen_tracks(p);
        let t = first_seen_tracks(p);
        assert forall|i: int| 0 <= i < spans.len() implies first_seen_tracks(spans).contains(#[trigger] spans[i].track@) by {
            if i < spans.len() - 1 {
                assert(p[i] == spans[i]);
                assert(t.contains(p[i].track@));
                let k = choose|k: int| 0 <= k < t.len() && t[k] == p[i].track@;
                assert(t.push(spans.last().track@)[k] == t[k]);
            } else if !t.contains(spans.last().track@) {
                assert(t.push(spans.last().track@)[t.len() as int] == spans.last().track@);
            }
        }
        assert forall|k: int| 0 <= k < first_seen_tracks(spans).len() implies exists|i: int|
            0 <= i < spans.len() && #[trigger] first_seen_tracks(spans)[k] == spans[i].track@ by {
            if k < t.len() {
                let i = choose|i: int| 0 <= i < p.len() && #[trigger] t[k] == p[i].track@;
                assert(spans[i] == p[i]);
            } else {
                assert(first_seen_tracks(spans)[k] == spans[spans.len() - 1].track@);
            }
        }
    }
}

/// Spans share a pid exactly when they share a track.
pub proof fn lemma_pid_per_track(spans: Seq<Span>, a: int, b: int)
    requires
        0 <= a < spans.len(),
        0 <= b < spans.len(),
    ensures
        ({
            let tracks = first_seen_tracks(spans);
            &&& 0 <= track_pid(tracks, spans[a].track@) < tracks.len()
            &&& tracks[track_pid(tracks, spans[a].track@)] == spans[a].track@
            &&& (track_pid(tracks, spans[a].track@) == track_pid(tracks, spans[b].track@)
                <==> spans[a].track@ == spans[b].track@)
        }),
{
    lemma_first_seen_tracks(spans);
    let tracks = first_seen_tracks(spans);
    assert(tracks.contains(spans[a].track@));
    assert(tracks.contains(spans[b].track@));
}

/// The reserved colour of a status.
pub fn colour_of(status: &Status) -> (r: Option<&'static str>)
    ensures
        match (r, colour_name(*status)) {
            (None, None) => true,
            (Some(c), Some(n)) => c@ == n,
            _ => false,
        },
{
    proof {
        reveal_strlit("terrible");
        reveal_strlit("bad");
        reveal_strlit("grey");
    }
    match status {
        Status::Success => None,
        Status::Failed => Some("terrible"),
        Status::Incomplete => Some("bad"),
        Status::Skipped => Some("grey"),
    }
}

/// The metadata event that labels `pid` with its track name.
pub fn process_name_event(track: &str, pid: i64) -> (e: TraceEvent)
    ensures
        is_process_name_event(e, track@, pid),
{
    TraceEvent::ProcessName { pid, track: track.to_owned() }
}

/// One span as a Complete event on the given pid.
pub fn span_event(s: &Span, pid: i64) -> (e: TraceEvent)
    ensures
        is_span_event(e, *s, pid),
{
    let mut args: TextMap<String> = TextMap::new();
    proof {
        reveal_strlit("status");
    }
    args.insert("status".to_owned(), s.status.as_str().to_owned());
    let ghost base = args@;
    let entries = s.args.entries();
    let mut j: usize = 0;
    assert(entries@.take(0) =~= Seq::<(String, String)>::empty());
    assert(base.union_prefer_right(Map::empty()) =~= base);
    while j < entries.len()
        invariant
            j <= entries@.len(),
            entries_map(entries@) == s.args@,
            args@ == base.union_prefer_right(entries_map(entries@.take(j as int))),
        decreases entries@.len() - j,
    {
        let key = entries[j].0.clone();
        let value = entries[j].1.clone();
        proof {
            assert(entries@.take(j + 1).drop_last() =~= entries@.take(j as int));
            assert(entries@.take(j + 1).last() == entries@[j as int]);
        }
        args.insert(key, value);
        proof {
            assert(args@ =~= base.union_prefer_right(entries_map(entries@.take(j + 1))));
        }
        j = j + 1;
    }
    proof {
        assert(entries@.take(j as int) =~= entries@);
        assert(args@.dom() =~= s.args@.dom().insert("status"@));
    }
    TraceEvent::Complete {
        name: s.name.clone(),
        cat: s.category.as_str().to_owned(),
        ts: s.start_us,
        dur: s.dur_us,
        pid,
        tid: s.lane,
        cname: colour_of(&s.status),
        args,
    }
}

/// The position of `track` among `tracks`, if it is there.
fn track_index(tracks: &Vec<&str>, track: &str) -> (r: Option<usize>)
    ensures
        r matches Some(i) ==> i < tracks@.len() && tracks@[i as int]@ == track@,
        r is None ==> forall|j: int| 0 <= j < tracks@.len() ==> tracks@[j]@ != track@,
{
    let mut i: usize = 0;
    while i < tracks.len()
        invariant
            i <= tracks@.len(),
            forall|j: int| 0 <= j < i ==> tracks@[j]@ != track@,
        decreases tracks@.len() - i,
    {
        if str_eq(tracks[i], track) {
            return Some(i);
        }
        i = i + 1;
    }
    None
}

/// The texts of the tracks.
pub open spec fn track_views(ts: Seq<&str>) -> Seq<Seq<char>> {
    ts.map_values(|t: &str| t@)
}

/// Serialize spans as a Chrome trace, assigning pids by first appearance of
/// each track within `spans`.
pub fn to_chrome_trace(spans: &[Span]) -> (trace: ChromeTrace)
    ensures
        is_trace_of(trace.events@, spans@),
        trace.display_time_unit@ == "ms"@,
{
    let n = spans.len();
    let mut tracks: Vec<&str> = Vec::new();
    let mut i: usize = 0;
    assert(spans@.take(0) =~= Seq::<Span>::empty());
    assert(track_views(tracks@) =~= first_seen_tracks(spans@.take(0)));
    while i < n
        invariant
            n == spans@.len(),
            i <= n,
            track_views(tracks@) == first_seen_tracks(spans@.take(i as int)),
        decreases n - i,
    {
        let t = spans[i].track.as_str();
        let found = track_index(&tracks, t);
        proof {
            assert(spans@.take(i + 1).drop_last() =~= spans@.take(i as int));
            assert(spans@.take(i + 1).last() == spans@[i as int]);
        }
        match found {
            Some(k) => {
                proof {
                    assert(track_views(tracks@)[k as int] == t@);
                    assert(track_views(tracks@).contains(t@));
                }
            },
            None => {
                proof {
                    assert(!track_views(tracks@).contains(t@)) by {
                        if track_views(tracks@).contains(t@) {
                            let k = choose|k: int| 0 <= k < track_views(tracks@).len() && track_views(tracks@)[k] == t@;
                            assert(tracks@[k]@ == t@);
                        }
                    }
                }
                tracks.push(t);
                proof {
                    assert(track_views(tracks@) =~= first_seen_tracks(spans@.take(i + 1)));
                }
            },
        }
        i = i + 1;
    }
    let ghost tv = track_views(tracks@);
    proof {
        assert(spans@.take(n as int) =~= spans@);
        lemma_first_seen_tracks(spans@);
    }
    let mut events: Vec<TraceEvent> = Vec::new();
    let mut k: usize = 0;
    while k < tracks.len()
        invariant
            tv == track_views(tracks@),
            tv == first_seen_tracks(spans@),
            k <= tracks@.len(),
            events@.len() == k,
            forall|m: int| 0 <= m < k ==> is_process_name_event(#[trigger] events@[m], tv[m], m as i64),
        decreases tracks@.len() - k,
    {
        let pid = #[verifier::truncate] (k as i64);
        events.push(process_name_event(tracks[k], pid));
        k = k + 1;
    }
    let t_len = tracks.len();
    let mut i: usize = 0;
    while i < n
        invariant
            n == spans@.len(),
            tv == track_views(tracks@),
            tv == first_seen_tracks(spans@),
            all_distinct(tv),
            forall|j: int| 0 <= j < n ==> tv.contains(#[trigger] spans@[j].track@),
            t_len == tv.len(),
            i <= n,
            events@.len() == t_len + i,
            forall|m: int| 0 <= m < t_len ==> is_process_name_event(#[trigger] events@[m], tv[m], m as i64),
            forall|j: int|
                0 <= j < i ==> is_span_event(
                    #[trigger] events@[t_len + j],
                    spans@[j],
                    track_pid(tv, spans@[j].track@) as i64,
                ),
        decreases n - i,
    {
        let found = track_index(&tracks, spans[i].track.as_str());
        proof {
            assert(tv.contains(spans@[i as int].track@));
        }
        let k = match found {
            Some(k) => k,
            None => {
                proof {
                    let m = choose|m: int| 0 <= m < tv.len() && tv[m] == spans@[i as int].track@;
                    assert(tracks@[m]@ == spans@[i as int].track@);
                }
                0
            },
        };
        proof {
            assert(found is Some);
            let c = track_pid(tv, spans@[i as int].track@);
            assert(tv[k as int] == spans@[i as int].track@);
            assert(0 <= c < tv.len() && tv[c] == spans@[i as int].track@);
            if c != k {
                if c < k {
                    assert(tv[c] != tv[k as int]);
                } else {
                    assert(tv[k as int] != tv[c]);
                }
            }
        }
        let pid = #[verifier::truncate] (k as i64);
        let e = span_event(&spans[i], pid);
        events.push(e);
        i = i + 1;
    }
    proof {
        reveal_strlit("ms");
    }
    ChromeTrace { events, display_time_unit: "ms" }
}

} // verus!
