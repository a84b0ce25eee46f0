//! The session envelope: where each tool invocation sits on the shared
//! wall clock, and which trace pid each track was given.
//!
//! Adapters emit spans relative to their tool's own start. The session keeps,
//! per track, the wall-clock instant the tool launched (relative to the
//! session's epoch) and lifts a batch of relative spans onto the shared axis.
//! It also hands out one stable pid per track, never reused, so a trace can
//! grow across separate invocations.
use crate::lane::with_lane;
use crate::span::Span;
use crate::text_map::{entries_map, lemma_entries_map, TextMap};
use vstd::prelude::*;

verus! {

/// The session state: the epoch, each track's start and pid, and the next
/// pid to hand out.
pub struct Session {
    /// Absolute anchor (µs since the Unix epoch) for the session's zero.
    epoch_unix_us: i64,
    /// Track name to wall-clock start (µs since `epoch_unix_us`).
    track_t0_us: TextMap<i64>,
    /// Track name to its pid in the trace.
    track_pid: TextMap<i64>,
    /// The next pid to hand out: above every pid in `track_pid`, unless it
    /// has reached `i64::MAX`.
    next_pid: i64,
}

/// What `pid_for` does to the pid table and counter: an existing track keeps
/// its pid; a new one gets the counter's value and the counter moves on.
/// Returns the pid, the new table and the new counter.
pub open spec fn assign_pid(pids: Map<Seq<char>, i64>, next: i64, track: Seq<char>) -> (
    i64,
    Map<Seq<char>, i64>,
    i64,
) {
    if pids.contains_key(track) {
        (pids[track], pids, next)
    } else {
        (next, pids.insert(track, next), (next + 1) as i64)
    }
}

/// Every pid handed out so far is below the counter.
pub open spec fn pids_below(pids: Map<Seq<char>, i64>, next: i64) -> bool {
    forall|t: Seq<char>| #[trigger] pids.contains_key(t) ==> pids[t] < next
}

/// No two tracks share a pid.
pub open spec fn pids_distinct(pids: Map<Seq<char>, i64>) -> bool {
    forall|a: Seq<char>, b: Seq<char>|
        #[trigger] pids.contains_key(a) && #[trigger] pids.contains_key(b) && a != b ==> pids[a]
            != pids[b]
}

/// The counter is fresh: every pid handed out so far is below it, or it has
/// reached the largest pid there is and can hand out no more.
pub open spec fn pids_fresh(pids: Map<Seq<char>, i64>, next: i64) -> bool {
    pids_below(pids, next) || next == i64::MAX
}

/// `c` is the counter a stored session resumes with, given its pid table and
/// the counter it stored: the least value at or above the stored counter that
/// is fresh for the table. It is the stored counter, or one more than the
/// largest stored pid (no more than `i64::MAX`), whichever is larger.
pub open spec fn resumed_counter(pids: Map<Seq<char>, i64>, next: i64, c: i64) -> bool {
    &&& next <= c
    &&& pids_fresh(pids, c)
    &&& c == next || exists|t: Seq<char>| #[trigger] pids.contains_key(t) && pids[t] >= c - 1
}

/// Where a span that starts at `start` on `track` lands on the shared axis:
/// shifted by the track's recorded start, or left where it is when the track
/// has none.
pub open spec fn placed_start(t0s: Map<Seq<char>, i64>, track: Seq<char>, start: i64) -> int {
    if t0s.contains_key(track) {
        start + t0s[track]
    } else {
        start as int
    }
}

/// `s` with its start replaced and every other field kept.
pub open spec fn with_start(s: Span, start: i64) -> Span {
    Span { start_us: start, ..s }
}

impl Session {
    #[verifier::type_invariant]
    spec fn counter_is_fresh(self) -> bool {
        pids_fresh(self.track_pid@, self.next_pid)
    }

    /// The next pid to hand out.
    pub closed spec fn pid_counter(&self) -> i64 {
        self.next_pid
    }

    /// The session's epoch (µs since the Unix epoch).
    pub closed spec fn epoch(&self) -> i64 {
        self.epoch_unix_us
    }

    /// Each track's recorded start, relative to the epoch.
    pub closed spec fn t0s(&self) -> Map<Seq<char>, i64> {
        self.track_t0_us@
    }

    /// Each track's pid.
    pub closed spec fn pids(&self) -> Map<Seq<char>, i64> {
        self.track_pid@
    }

    /// A session with the given parts (as a stored sidecar holds them). The
    /// counter resumes above every stored pid, so that a pid once handed out
    /// is never handed out again, whatever counter was stored.
    pub fn from_parts(
        epoch_unix_us: i64,
        track_t0_us: TextMap<i64>,
        track_pid: TextMap<i64>,
        next_pid: i64,
    ) -> (s: Session)
        ensures
            s.epoch() == epoch_unix_us,
            s.t0s() == track_t0_us@,
            s.pids() == track_pid@,
            resumed_counter(track_pid@, next_pid, s.pid_counter()),
    {
        let entries = track_pid.entries();
        let ghost e = entries@;
        proof {
            lemma_entries_map(e);
        }
        let mut c: i64 = next_pid;
        let mut i: usize = 0;
        while i < entries.len()
            invariant
                e == entries@,
                i <= e.len(),
                next_pid <= c,
                forall|j: int| 0 <= j < i ==> e[j].1 < c || c == i64::MAX,
                c == next_pid || exists|j: int| 0 <= j < i && e[j].1 >= c - 1,
            decreases e.len() - i,
        {
            let p = entries[i].1;
            if p >= c {
                if p < i64::MAX {
                    c = p + 1;
                } else {
                    c = i64::MAX;
                }
                assert(e[i as int].1 >= c - 1);
            }
            i = i + 1;
        }
        proof {
            let m = track_pid@;
            assert(m == entries_map(e));
            assert(pids_fresh(m, c)) by {
                if c != i64::MAX {
                    assert forall|t: Seq<char>| #[trigger] m.contains_key(t) implies m[t] < c by {
                        let j = choose|j: int| 0 <= j < e.len() && e[j].0@ == t;
                        assert(m[e[j].0@] == e[j].1);
                    }
                }
            }
            if c != next_pid {
                let j = choose|j: int| 0 <= j < e.len() && e[j].1 >= c - 1;
                assert(m.contains_key(e[j].0@));
                assert(m[e[j].0@] == e[j].1);
            }
        }
        Session { epoch_unix_us, track_t0_us, track_pid, next_pid: c }
    }

    /// A fresh session anchored at `epoch_unix_us`, with no tracks yet.
    pub fn anchored_at(epoch_unix_us: i64) -> (s: Session)
        ensures
            s.epoch() == epoch_unix_us,
            s.t0s() == Map::<Seq<char>, i64>::empty(),
            s.pids() == Map::<Seq<char>, i64>::empty(),
            s.pid_counter() == 0,
    {
        Session {
            epoch_unix_us,
            track_t0_us: TextMap::new(),
            track_pid: TextMap::new(),
            next_pid: 0,
        }
    }

    /// The next pid to hand out.
    pub fn next_pid(&self) -> (r: i64)
        ensures
            r == self.pid_counter(),
            pids_fresh(self.pids(), r),
    {
        proof {
            use_type_invariant(self);
        }
        self.next_pid
    }

    /// The session's epoch (µs since the Unix epoch).
    pub fn epoch_unix_us(&self) -> (r: i64)
        ensures
            r == self.epoch(),
    {
        self.epoch_unix_us
    }

    /// Each track's recorded start (µs since the epoch).
    pub fn track_t0_us(&self) -> (r: &TextMap<i64>)
        ensures
            r@ == self.t0s(),
    {
        &self.track_t0_us
    }

    /// Each track's pid.
    pub fn track_pid(&self) -> (r: &TextMap<i64>)
        ensures
            r@ == self.pids(),
    {
        &self.track_pid
    }

    /// Record that `track` launched at the given wall-clock instant (µs since
    /// the Unix epoch), stored relative to the session's epoch. A later
    /// launch of the same track replaces the earlier one.
    pub fn record_start(&mut self, track: &str, wall_clock_unix_us: i64)
        requires
            i64::MIN <= wall_clock_unix_us - old(self).epoch() <= i64::MAX,
        ensures
            final(self).t0s() == old(self).t0s().insert(
                track@,
                (wall_clock_unix_us - old(self).epoch()) as i64,
            ),
            final(self).epoch() == old(self).epoch(),
            final(self).pids() == old(self).pids(),
            final(self).pid_counter() == old(self).pid_counter(),
    {
        proof {
            use_type_invariant(&*self);
        }
        let t0 = wall_clock_unix_us - self.epoch_unix_us;
        let mut t0s: TextMap<i64> = TextMap::new();
        std::mem::swap(&mut t0s, &mut self.track_t0_us);
        t0s.insert(track.to_owned(), t0);
        self.track_t0_us = t0s;
    }

    /// The stable pid of `track`, allocating the next one on first use. A pid
    /// is never handed out twice: a new track gets a pid that no track had,
    /// and the counter stays fresh.
    pub fn pid_for(&mut self, track: &str) -> (pid: i64)
        requires
            old(self).pids().contains_key(track@) || old(self).pid_counter() < i64::MAX,
        ensures
            (pid, final(self).pids(), final(self).pid_counter()) == assign_pid(
                old(self).pids(),
                old(self).pid_counter(),
                track@,
            ),
            final(self).pids().contains_key(track@),
            final(self).pids()[track@] == pid,
            !old(self).pids().contains_key(track@) ==> forall|t: Seq<char>|
                #[trigger] old(self).pids().contains_key(t) ==> old(self).pids()[t] != pid,
            pids_distinct(old(self).pids()) ==> pids_distinct(final(self).pids()),
            pids_fresh(old(self).pids(), old(self).pid_counter()),
            pids_fresh(final(self).pids(), final(self).pid_counter()),
            final(self).epoch() == old(self).epoch(),
            final(self).t0s() == old(self).t0s(),
    {
        proof {
            use_type_invariant(&*self);
        }
        match self.track_pid.get(track) {
            Some(pid) => {
                return *pid;
            },
            None => {},
        }
        let pid = self.next_pid;
        self.next_pid = self.next_pid + 1;
        let mut pids: TextMap<i64> = TextMap::new();
        std::mem::swap(&mut pids, &mut self.track_pid);
        pids.insert(track.to_owned(), pid);
        proof {
            assert forall|t: Seq<char>| #[trigger] pids@.contains_key(t) implies pids@[t]
                < self.next_pid by {
                if t != track@ {
                    assert(old(self).pids().contains_key(t));
                }
            }
        }
        self.track_pid = pids;
        proof {
            lemma_pid_never_reused(old(self).pids(), old(self).pid_counter(), track@);
        }
        pid
    }

    /// True the first time `track` is seen, when `pid_for` would allocate a
    /// pid for it.
    pub fn is_new_track(&self, track: &str) -> (r: bool)
        ensures
            r == !self.pids().contains_key(track@),
    {
        !self.track_pid.contains_key(track)
    }

    /// Lift one batch of relative spans onto the shared axis, in place: each
    /// span moves by its track's recorded start; spans whose track has none
    /// stay where they are. Nothing but `start_us` changes.
    pub fn place(&self, spans: &mut [Span])
        requires
            forall|i: int|
                0 <= i < old(spans)@.len() ==> i64::MIN <= #[trigger] placed_start(
                    self.t0s(),
                    old(spans)@[i].track@,
                    old(spans)@[i].start_us,
                ) <= i64::MAX,
        ensures
            final(spans)@.len() == old(spans)@.len(),
            forall|i: int|
                0 <= i < old(spans)@.len() ==> #[trigger] final(spans)@[i] == with_start(
                    old(spans)@[i],
                    placed_start(self.t0s(), old(spans)@[i].track@, old(spans)@[i].start_us)
                        as i64,
                ),
    {
        let ghost old_spans = spans@;
        let n = spans.len();
        let mut i: usize = 0;
        while i < n
            invariant
                n == spans@.len(),
                n == old_spans.len(),
                i <= n,
                forall|j: int|
                    0 <= j < n ==> i64::MIN <= #[trigger] placed_start(
                        self.t0s(),
                        old_spans[j].track@,
                        old_spans[j].start_us,
                    ) <= i64::MAX,
                forall|j: int|
                    0 <= j < i ==> #[trigger] spans@[j] == with_start(
                        old_spans[j],
                        placed_start(self.t0s(), old_spans[j].track@, old_spans[j].start_us)
                            as i64,
                    ),
                forall|j: int| i <= j < n ==> #[trigger] spans@[j] == old_spans[j],
            decreases n - i,
        {
            let t0 = self.track_t0_us.get(spans[i].track.as_str());
            match t0 {
                Some(t0) => {
                    assert(i64::MIN <= placed_start(
                        self.t0s(),
                        old_spans[i as int].track@,
                        old_spans[i as int].start_us,
                    ) <= i64::MAX);
                    spans[i].start_us = spans[i].start_us + *t0;
                },
                None => {},
            }
            i = i + 1;
        }
    }
}

impl Default for Session {
    /// A session anchored at the Unix epoch itself, with no tracks.
    fn default() -> (s: Session)
        ensures
            s.epoch() == 0,
            s.t0s() == Map::<Seq<char>, i64>::empty(),
            s.pids() == Map::<Seq<char>, i64>::empty(),
            s.pid_counter() == 0,
    {
        Session::anchored_at(0)
    }
}

/// A track's pid is stable: asking again returns the same pid and changes
/// nothing.
pub proof fn lemma_pid_stable(pids: Map<Seq<char>, i64>, next: i64, track: Seq<char>)
    ensures
        ({
            let (pid, pids2, next2) = assign_pid(pids, next, track);
            assign_pid(pids2, next2, track) == (pid, pids2, next2)
        }),
{
}

/// Pids are never reused: while the counter is fresh, a new track gets a pid
/// that no other track has, the counter stays fresh for the next one, and
/// tracks that had distinct pids still do.
pub proof fn lemma_pid_never_reused(pids: Map<Seq<char>, i64>, next: i64, track: Seq<char>)
    requires
        pids_fresh(pids, next),
        pids.contains_key(track) || next < i64::MAX,
    ensures
        ({
            let (pid, pids2, next2) = assign_pid(pids, next, track);
            &&& pids_fresh(pids2, next2)
            &&& !pids.contains_key(track) ==> forall|t: Seq<char>|
                #[trigger] pids.contains_key(t) ==> pids[t] != pid
            &&& pids_distinct(pids) ==> pids_distinct(pids2)
        }),
{
    let (pid, pids2, next2) = assign_pid(pids, next, track);
    if !pids.contains_key(track) {
        if pids_distinct(pids) {
            assert forall|a: Seq<char>, b: Seq<char>|
                #[trigger] pids2.contains_key(a) && #[trigger] pids2.contains_key(b) && a != b
                    implies pids2[a] != pids2[b] by {
                if a != track && b != track {
                    assert(pids.contains_key(a) && pids.contains_key(b));
                } else if a == track {
                    assert(pids.contains_key(b));
                } else {
                    assert(pids.contains_key(a));
                }
            }
        }
        assert forall|t: Seq<char>| #[trigger] pids2.contains_key(t) implies pids2[t] < next2 by {
            if t != track {
                assert(pids.contains_key(t));
            }
        }
    }
}

/// A track is new exactly until it is given a pid.
pub proof fn lemma_new_until_assigned(pids: Map<Seq<char>, i64>, next: i64, track: Seq<char>)
    ensures
        assign_pid(pids, next, track).1.contains_key(track),
        pids.contains_key(track) == (assign_pid(pids, next, track).1 == pids),
{
    if !pids.contains_key(track) {
        assert(!pids.contains_key(track) && assign_pid(pids, next, track).1.contains_key(track));
    }
}

/// Recording a launch and then placing that track's relative spans puts each
/// span at its relative start plus the launch's offset from the epoch; the
/// latest launch of a track is the one that counts.
pub proof fn lemma_record_then_place(
    t0s: Map<Seq<char>, i64>,
    epoch: i64,
    earlier: i64,
    wall: i64,
    track: Seq<char>,
    start: i64,
)
    requires
        i64::MIN <= wall - epoch <= i64::MAX,
        i64::MIN <= earlier - epoch <= i64::MAX,
    ensures
        placed_start(t0s.insert(track, (wall - epoch) as i64), track, start) == start + (wall
            - epoch),
        placed_start(
            t0s.insert(track, (earlier - epoch) as i64).insert(track, (wall - epoch) as i64),
            track,
            start,
        ) == start + (wall - epoch),
{
}

/// Placing leaves spans of other tracks where they are.
pub proof fn lemma_place_other_track(
    t0s: Map<Seq<char>, i64>,
    track: Seq<char>,
    t0: i64,
    other: Seq<char>,
    start: i64,
)
    requires
        other != track,
        !t0s.contains_key(other),
    ensures
        placed_start(t0s.insert(track, t0), other, start) == start,
{
}

} // verus!
