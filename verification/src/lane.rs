//! Greedy swim-lane packing: each span gets the lowest-numbered lane whose
//! previous span has already finished, so overlapping work lands on separate
//! rows and sequential work reuses a row.
use crate::span::Span;
use vstd::prelude::*;

verus! {

/// The start and duration of each span: all that packing looks at.
pub open spec fn timings(spans: Seq<Span>) -> Seq<(i64, i64)> {
    spans.map_values(|s: Span| (s.start_us, s.dur_us))
}

/// When an interval given as (start, duration) ends.
pub open spec fn interval_end(t: (i64, i64)) -> int {
    t.0 + t.1
}

/// `s` with its lane replaced and every other field kept.
pub open spec fn with_lane(s: Span, lane: u32) -> Span {
    Span { lane, ..s }
}

/// Span `a` comes before span `b` in start-time order, ties broken by input
/// position (a stable sort by start time).
pub open spec fn comes_before(ts: Seq<(i64, i64)>, a: int, b: int) -> bool {
    ts[a].0 < ts[b].0 || (ts[a].0 == ts[b].0 && a < b)
}

/// `i` occurs in `order`.
pub open spec fn lists(order: Seq<int>, i: int) -> bool {
    exists|k: int| 0 <= k < order.len() && order[k] == i
}

/// `order` lists every index of `ts` once, in start-time order.
pub open spec fn is_start_order(ts: Seq<(i64, i64)>, order: Seq<int>) -> bool {
    &&& order.len() == ts.len()
    &&& forall|k: int| 0 <= k < order.len() ==> 0 <= #[trigger] order[k] < ts.len()
    &&& forall|i: int| 0 <= i < ts.len() ==> #[trigger] lists(order, i)
    &&& forall|k: int, l: int|
        0 <= k < l < order.len() ==> comes_before(ts, #[trigger] order[k], #[trigger] order[l])
}

/// Where span `x` goes among the sorted indices `o`: before the first span
/// that starts strictly later, so that equal start times keep input order.
pub open spec fn insert_pos_from(ts: Seq<(i64, i64)>, o: Seq<int>, x: int, p: int) -> int
    decreases o.len() - p,
{
    if p >= o.len() {
        o.len() as int
    } else if ts[x].0 < ts[o[p]].0 {
        p
    } else {
        insert_pos_from(ts, o, x, p + 1)
    }
}

/// The first `i` indices of `ts` sorted by start time, ties in input order.
pub open spec fn start_order_prefix(ts: Seq<(i64, i64)>, i: nat) -> Seq<int>
    decreases i,
{
    if i == 0 {
        seq![]
    } else {
        let o = start_order_prefix(ts, (i - 1) as nat);
        o.insert(insert_pos_from(ts, o, i - 1, 0), i - 1)
    }
}

/// The order in which spans are packed: by start time, ties in input order.
pub open spec fn lane_order(ts: Seq<(i64, i64)>) -> Seq<int> {
    start_order_prefix(ts, ts.len())
}

/// `o` lists the indices below `i` once each, in start-time order.
pub open spec fn is_prefix_order(ts: Seq<(i64, i64)>, o: Seq<int>, i: int) -> bool {
    &&& o.len() == i
    &&& forall|k: int| 0 <= k < o.len() ==> 0 <= #[trigger] o[k] < i
    &&& forall|j: int| 0 <= j < i ==> #[trigger] lists(o, j)
    &&& forall|k: int, l: int|
        0 <= k < l < o.len() ==> comes_before(ts, #[trigger] o[k], #[trigger] o[l])
}

proof fn lemma_insert_pos_from(ts: Seq<(i64, i64)>, o: Seq<int>, x: int, p: int)
    requires
        0 <= p <= o.len(),
    ensures
        p <= insert_pos_from(ts, o, x, p) <= o.len(),
        forall|q: int|
            p <= q < insert_pos_from(ts, o, x, p) ==> ts[o[q]].0 <= ts[x].0,
        insert_pos_from(ts, o, x, p) < o.len() ==> ts[x].0 < ts[o[insert_pos_from(
            ts,
            o,
            x,
            p,
        )]].0,
    decreases o.len() - p,
{
    if p < o.len() && !(ts[x].0 < ts[o[p]].0) {
        lemma_insert_pos_from(ts, o, x, p + 1);
    }
}

/// The sorted prefixes are start orders of the indices they cover.
pub proof fn lemma_start_order_prefix(ts: Seq<(i64, i64)>, i: nat)
    requires
        i <= ts.len(),
    ensures
        is_prefix_order(ts, start_order_prefix(ts, i), i as int),
    decreases i,
{
    if i > 0 {
        let ii = (i - 1) as int;
        lemma_start_order_prefix(ts, (i - 1) as nat);
        let o = start_order_prefix(ts, (i - 1) as nat);
        let p = insert_pos_from(ts, o, ii, 0);
        lemma_insert_pos_from(ts, o, ii, 0);
        let no = o.insert(p, ii);
        assert(no == start_order_prefix(ts, i));
        assert forall|q: int| p <= q < o.len() implies ts[ii].0 < ts[#[trigger] o[q]].0 by {
            if p < q {
                assert(comes_before(ts, o[p], o[q]));
            }
        }
        assert forall|k: int| 0 <= k < no.len() implies 0 <= #[trigger] no[k] < i by {
            if k < p {
                assert(no[k] == o[k]);
            } else if k > p {
                assert(no[k] == o[k - 1]);
            }
        }
        assert forall|j: int| 0 <= j < i implies #[trigger] lists(no, j) by {
            if j == ii {
                assert(no[p] == j);
            } else {
                assert(lists(o, j));
                let k0 = choose|k: int| 0 <= k < o.len() && o[k] == j;
                if k0 < p {
                    assert(no[k0] == j);
                } else {
                    assert(no[k0 + 1] == j);
                }
            }
        }
        assert forall|k: int, l: int| 0 <= k < l < no.len() implies comes_before(
            ts,
            #[trigger] no[k],
            #[trigger] no[l],
        ) by {
            if l < p {
                assert(no[k] == o[k] && no[l] == o[l]);
            } else if l == p {
                assert(no[k] == o[k]);
            } else if k < p {
                assert(no[l] == o[l - 1]);
                assert(no[k] == o[k]);
            } else if k == p {
                assert(no[l] == o[l - 1]);
            } else {
                assert(no[k] == o[k - 1] && no[l] == o[l - 1]);
            }
        }
    }
}

/// The packing order is a start order of all the spans.
pub proof fn lemma_lane_order(ts: Seq<(i64, i64)>)
    ensures
        is_start_order(ts, lane_order(ts)),
{
    lemma_start_order_prefix(ts, ts.len());
}

/// The first lane at or after `l` whose last span ended by `start`, or a new
/// lane (`ends.len()`) if none has.
pub open spec fn first_free_from(ends: Seq<int>, start: int, l: int) -> int
    decreases ends.len() - l,
{
    if l >= ends.len() {
        ends.len() as int
    } else if ends[l] <= start {
        l
    } else {
        first_free_from(ends, start, l + 1)
    }
}

/// The lowest-numbered lane free at `start`.
pub open spec fn first_free(ends: Seq<int>, start: int) -> int {
    first_free_from(ends, start, 0)
}

/// The packing after the first `k` spans of `order`: the end time of the last
/// span on each lane, and the lane given to each span packed so far.
pub open spec fn pack_state(ts: Seq<(i64, i64)>, order: Seq<int>, k: nat) -> (Seq<int>, Map<int, int>)
    decreases k,
{
    if k == 0 {
        (seq![], Map::empty())
    } else {
        let prev = pack_state(ts, order, (k - 1) as nat);
        let i = order[k - 1];
        let start = ts[i].0 as int;
        let l = first_free(prev.0, start);
        let ends = if l < prev.0.len() {
            prev.0.update(l, interval_end(ts[i]))
        } else {
            prev.0.push(interval_end(ts[i]))
        };
        (ends, prev.1.insert(i, l))
    }
}

/// The lane that greedy packing gives span `i`.
pub open spec fn packed_lane(ts: Seq<(i64, i64)>, i: int) -> int {
    pack_state(ts, lane_order(ts), ts.len()).1[i]
}

/// Every span's end fits in an `i64`.
pub open spec fn ends_fit(ts: Seq<(i64, i64)>) -> bool {
    forall|i: int| 0 <= i < ts.len() ==> i64::MIN <= #[trigger] interval_end(ts[i]) <= i64::MAX
}

pub proof fn lemma_first_free_from(ends: Seq<int>, start: int, l: int)
    requires
        0 <= l <= ends.len(),
    ensures
        l <= first_free_from(ends, start, l) <= ends.len(),
        first_free_from(ends, start, l) < ends.len() ==> ends[first_free_from(ends, start, l)]
            <= start,
        forall|j: int| l <= j < first_free_from(ends, start, l) ==> ends[j] > start,
    decreases ends.len() - l,
{
    if l < ends.len() && ends[l] > start {
        lemma_first_free_from(ends, start, l + 1);
    }
}

/// The indices as mathematical integers.
pub open spec fn as_ints(s: Seq<usize>) -> Seq<int> {
    s.map_values(|x: usize| x as int)
}

/// The indices of `spans` sorted by start time, ties in input order.
fn start_order(spans: &[Span]) -> (order: Vec<usize>)
    ensures
        as_ints(order@) == lane_order(timings(spans@)),
{
    let ghost ts = timings(spans@);
    let n = spans.len();
    let mut order: Vec<usize> = Vec::new();
    let mut i: usize = 0;
    assert(as_ints(order@) =~= start_order_prefix(ts, 0));
    while i < n
        invariant
            n == spans@.len(),
            ts == timings(spans@),
            i <= n,
            as_ints(order@) == start_order_prefix(ts, i as nat),
        decreases n - i,
    {
        proof {
            lemma_start_order_prefix(ts, i as nat);
        }
        let ghost o = start_order_prefix(ts, i as nat);
        let start = spans[i].start_us;
        assert(ts[i as int].0 == start);
        let mut p: usize = 0;
        while p < order.len() && spans[order[p]].start_us <= start
            invariant
                n == spans@.len(),
                ts == timings(spans@),
                i < n,
                start == ts[i as int].0,
                as_ints(order@) == o,
                is_prefix_order(ts, o, i as int),
                p <= order@.len(),
                insert_pos_from(ts, o, i as int, 0) == insert_pos_from(ts, o, i as int, p as int),
            decreases order@.len() - p,
        {
            assert(o[p as int] == order@[p as int] as int);
            assert(ts[o[p as int]].0 == spans@[o[p as int]].start_us);
            p = p + 1;
        }
        proof {
            if p < order@.len() {
                assert(o[p as int] == order@[p as int] as int);
                assert(ts[o[p as int]].0 == spans@[o[p as int]].start_us);
            }
        }
        order.insert(p, i);
        proof {
            assert(as_ints(order@) =~= o.insert(p as int, i as int));
        }
        i = i + 1;
    }
    order
}

/// Give each span the lowest-numbered lane whose previous span has already
/// finished, considering spans in start-time order (ties in input order).
/// Only `Span::lane` changes; the slice order is left untouched.
pub fn pack_lanes(spans: &mut [Span])
    requires
        ends_fit(timings(old(spans)@)),
    ensures
        final(spans)@.len() == old(spans)@.len(),
        forall|i: int|
            0 <= i < old(spans)@.len() ==> #[trigger] final(spans)@[i] == with_lane(
                old(spans)@[i],
                packed_lane(timings(old(spans)@), i) as u32,
            ),
{
    let ghost old_spans = spans@;
    let ghost ts = timings(old_spans);
    let n = spans.len();
    let order = start_order(spans);
    let ghost ord = as_ints(order@);
    proof {
        lemma_lane_order(ts);
    }
    let mut lane_end: Vec<i64> = Vec::new();
    let mut k: usize = 0;
    while k < n
        invariant
            n == old_spans.len(),
            spans@.len() == n,
            order@.len() == n,
            ord == as_ints(order@),
            ts == timings(old_spans),
            ord == lane_order(ts),
            is_start_order(ts, ord),
            ends_fit(ts),
            k <= n,
            forall|j: int| 0 <= j < n ==> #[trigger] spans@[j] == with_lane(old_spans[j], spans@[j].lane),
            as_ints_i64(lane_end@) == pack_state(ts, ord, k as nat).0,
            forall|j: int| 0 <= j < k ==> #[trigger] spans@[ord[j]].lane == (pack_state(ts, ord, k as nat).1[ord[j]] as u32),
        decreases n - k,
    {
        let i = order[k];
        assert(0 <= ord[k as int] < n);
        let start = spans[i].start_us;
        proof {
            assert(spans@[i as int] == with_lane(old_spans[i as int], spans@[i as int].lane));
            assert(i64::MIN <= interval_end(ts[i as int]) <= i64::MAX);
            assert(ts[i as int] == (old_spans[i as int].start_us, old_spans[i as int].dur_us));
        }
        let end = start + spans[i].dur_us;
        let ghost prev = pack_state(ts, ord, k as nat);
        let mut l: usize = 0;
        while l < lane_end.len() && lane_end[l] > start
            invariant
                l <= lane_end@.len(),
                as_ints_i64(lane_end@) == prev.0,
                first_free(prev.0, start as int) == first_free_from(prev.0, start as int, l as int),
            decreases lane_end@.len() - l,
        {
            l = l + 1;
        }
        proof {
            lemma_first_free_from(prev.0, start as int, l as int);
        }
        if l < lane_end.len() {
            lane_end.set(l, end);
        } else {
            lane_end.push(end);
        }
        spans[i].lane = #[verifier::truncate] (l as u32);
        proof {
            let next = pack_state(ts, ord, (k + 1) as nat);
            assert(ord[k as int] == i as int);
            assert(as_ints_i64(lane_end@) =~= next.0);
            assert forall|j: int| 0 <= j < k + 1 implies #[trigger] spans@[ord[j]].lane == (
            next.1[ord[j]] as u32) by {
                if j < k {
                    assert(ord[j] != ord[k as int]) by {
                        assert(comes_before(ts, ord[j], ord[k as int]));
                    }
                }
            }
        }
        k = k + 1;
    }
    proof {
        assert forall|i: int| 0 <= i < n implies #[trigger] spans@[i] == with_lane(
            old_spans[i],
            packed_lane(ts, i) as u32,
        ) by {
            assert(lists(ord, i));
            let j = choose|j: int| 0 <= j < ord.len() && ord[j] == i;
            assert(spans@[ord[j]].lane == (pack_state(ts, ord, n as nat).1[ord[j]] as u32));
        }
    }
}

/// The values as mathematical integers.
pub open spec fn as_ints_i64(s: Seq<i64>) -> Seq<int> {
    s.map_values(|x: i64| x as int)
}

/// No span has a negative duration.
pub open spec fn durations_nonneg(ts: Seq<(i64, i64)>) -> bool {
    forall|i: int| 0 <= i < ts.len() ==> #[trigger] ts[i].1 >= 0
}

/// What greedy packing keeps true after the first `k` spans of `order`.
pub open spec fn packing_sound(ts: Seq<(i64, i64)>, order: Seq<int>, k: nat) -> bool {
    let st = pack_state(ts, order, k);
    &&& st.0.len() <= k
    &&& forall|j: int| 0 <= j < k ==> #[trigger] st.1.contains_key(order[j])
    &&& forall|j: int| 0 <= j < k ==> 0 <= #[trigger] st.1[order[j]] < st.0.len()
    &&& forall|j: int| 0 <= j < k ==> interval_end(ts[order[j]]) <= st.0[#[trigger] st.1[order[j]]]
    &&& forall|j1: int, j2: int|
        0 <= j1 < j2 < k && #[trigger] st.1[order[j1]] == #[trigger] st.1[order[j2]]
            ==> interval_end(ts[order[j1]]) <= ts[order[j2]].0
}

proof fn lemma_packing_sound(ts: Seq<(i64, i64)>, k: nat)
    requires
        durations_nonneg(ts),
        k <= ts.len(),
    ensures
        packing_sound(ts, lane_order(ts), k),
    decreases k,
{
    let order = lane_order(ts);
    lemma_lane_order(ts);
    if k > 0 {
        lemma_packing_sound(ts, (k - 1) as nat);
        let prev = pack_state(ts, order, (k - 1) as nat);
        let st = pack_state(ts, order, k);
        let i = order[k - 1];
        let start = ts[i].0 as int;
        let l = first_free(prev.0, start);
        lemma_first_free_from(prev.0, start, 0);
        assert(ts[i].1 >= 0);
        assert forall|j: int| 0 <= j < k - 1 implies order[j] != i by {
            assert(comes_before(ts, order[j], order[k - 1]));
        }
        assert forall|j: int| 0 <= j < k implies #[trigger] st.1.contains_key(order[j]) by {
            if j < k - 1 {
                assert(prev.1.contains_key(order[j]));
            }
        }
        assert forall|j: int| 0 <= j < k implies 0 <= #[trigger] st.1[order[j]] < st.0.len() by {
            if j < k - 1 {
                assert(st.1[order[j]] == prev.1[order[j]]);
            }
        }
        assert forall|j: int| 0 <= j < k implies interval_end(ts[order[j]])
            <= st.0[#[trigger] st.1[order[j]]] by {
            if j < k - 1 {
                let lj = prev.1[order[j]];
                assert(st.1[order[j]] == lj);
                assert(interval_end(ts[order[j]]) <= prev.0[lj]);
                if lj == l {
                    assert(prev.0[l] <= start);
                }
            }
        }
        assert forall|j1: int, j2: int|
            0 <= j1 < j2 < k && #[trigger] st.1[order[j1]] == #[trigger] st.1[order[j2]]
                implies interval_end(ts[order[j1]]) <= ts[order[j2]].0 by {
            assert(st.1[order[j1]] == prev.1[order[j1]]);
            if j2 < k - 1 {
                assert(st.1[order[j2]] == prev.1[order[j2]]);
            } else {
                assert(prev.1[order[j1]] == l);
                assert(interval_end(ts[order[j1]]) <= prev.0[prev.1[order[j1]]]);
            }
        }
    }
}

/// Spans that share a lane do not overlap: when no duration is negative,
/// of two different spans packed onto the same lane one ends no later than
/// the other starts.
pub proof fn lemma_shared_lane_no_overlap(ts: Seq<(i64, i64)>, a: int, b: int)
    requires
        durations_nonneg(ts),
        0 <= a < ts.len(),
        0 <= b < ts.len(),
        a != b,
        packed_lane(ts, a) == packed_lane(ts, b),
    ensures
        interval_end(ts[a]) <= ts[b].0 || interval_end(ts[b]) <= ts[a].0,
{
    let order = lane_order(ts);
    lemma_lane_order(ts);
    lemma_packing_sound(ts, ts.len());
    let st = pack_state(ts, order, ts.len());
    assert(lists(order, a));
    assert(lists(order, b));
    let ja = choose|k: int| 0 <= k < order.len() && order[k] == a;
    let jb = choose|k: int| 0 <= k < order.len() && order[k] == b;
    if ja < jb {
        assert(st.1[order[ja]] == st.1[order[jb]]);
    } else {
        assert(st.1[order[jb]] == st.1[order[ja]]);
    }
}

/// Lanes are numbered from zero and every span's lane is below the number
/// of spans.
pub proof fn lemma_lane_below_count(ts: Seq<(i64, i64)>, a: int)
    requires
        0 <= a < ts.len(),
    ensures
        0 <= packed_lane(ts, a) < ts.len(),
{
    lemma_lane_order(ts);
    lemma_lanes_bounded(ts, ts.len());
    let order = lane_order(ts);
    assert(lists(order, a));
    let ja = choose|k: int| 0 <= k < order.len() && order[k] == a;
    assert(pack_state(ts, order, ts.len()).1.contains_key(order[ja]));
}

proof fn lemma_lanes_bounded(ts: Seq<(i64, i64)>, k: nat)
    requires
        k <= ts.len(),
    ensures
        pack_state(ts, lane_order(ts), k).0.len() <= k,
        forall|j: int|
            0 <= j < k ==> #[trigger] pack_state(ts, lane_order(ts), k).1.contains_key(
                lane_order(ts)[j],
            ),
        forall|x: int|
            #[trigger] pack_state(ts, lane_order(ts), k).1.contains_key(x) ==> 0
                <= pack_state(ts, lane_order(ts), k).1[x] < pack_state(
                ts,
                lane_order(ts),
                k,
            ).0.len(),
    decreases k,
{
    if k > 0 {
        lemma_lanes_bounded(ts, (k - 1) as nat);
        let order = lane_order(ts);
        let prev = pack_state(ts, order, (k - 1) as nat);
        lemma_first_free_from(prev.0, ts[order[k - 1]].0 as int, 0);
    }
}

/// Packing again changes nothing: lanes depend only on start times and
/// durations, which packing leaves as they were.
pub proof fn lemma_repacking_is_stable(before: Seq<Span>, after: Seq<Span>)
    requires
        after.len() == before.len(),
        forall|i: int|
            0 <= i < before.len() ==> #[trigger] after[i] == with_lane(
                before[i],
                packed_lane(timings(before), i) as u32,
            ),
    ensures
        timings(after) == timings(before),
        forall|i: int|
            0 <= i < before.len() ==> packed_lane(timings(after), i) == packed_lane(
                timings(before),
                i,
            ),
{
    assert forall|i: int| 0 <= i < before.len() implies #[trigger] timings(after)[i] == timings(
        before,
    )[i] by {
        assert(after[i] == with_lane(before[i], packed_lane(timings(before), i) as u32));
    }
    assert(timings(after) =~= timings(before));
}

/// Work that runs strictly one step after another, each step starting no
/// earlier than every earlier-starting step has ended.
pub open spec fn is_sequential(ts: Seq<(i64, i64)>) -> bool {
    forall|a: int, b: int|
        0 <= a < ts.len() && 0 <= b < ts.len() && comes_before(ts, a, b) ==> interval_end(
            #[trigger] ts[a],
        ) <= #[trigger] ts[b].0
}

proof fn lemma_sequential_state(ts: Seq<(i64, i64)>, k: nat)
    requires
        is_sequential(ts),
        k <= ts.len(),
    ensures
        ({
            let order = lane_order(ts);
            let st = pack_state(ts, order, k);
            &&& k == 0 ==> st.0.len() == 0
            &&& k > 0 ==> st.0 == seq![interval_end(ts[order[k - 1]])]
            &&& forall|j: int| 0 <= j < k ==> #[trigger] st.1[order[j]] == 0
        }),
    decreases k,
{
    lemma_lane_order(ts);
    let order = lane_order(ts);
    if k > 0 {
        lemma_sequential_state(ts, (k - 1) as nat);
        let prev = pack_state(ts, order, (k - 1) as nat);
        let i = order[k - 1];
        if k > 1 {
            assert(comes_before(ts, order[k - 2], order[k - 1]));
            assert(interval_end(ts[order[k - 2]]) <= ts[i].0);
        }
        lemma_first_free_from(prev.0, ts[i].0 as int, 0);
        let st = pack_state(ts, order, k);
        assert forall|j: int| 0 <= j < k implies #[trigger] st.1[order[j]] == 0 by {
            if j < k - 1 {
                assert(order[j] != order[k - 1]) by {
                    assert(comes_before(ts, order[j], order[k - 1]));
                }
            }
        }
        assert(st.0 =~= seq![interval_end(ts[i])]);
    }
}

/// Sequential work reuses a row: when each step starts after every
/// earlier-starting one has ended, every span is packed onto lane 0.
pub proof fn lemma_sequential_work_single_lane(ts: Seq<(i64, i64)>, a: int)
    requires
        is_sequential(ts),
        0 <= a < ts.len(),
    ensures
        packed_lane(ts, a) == 0,
{
    lemma_lane_order(ts);
    lemma_sequential_state(ts, ts.len());
    let order = lane_order(ts);
    assert(lists(order, a));
    let j = choose|k: int| 0 <= k < order.len() && order[k] == a;
    assert(pack_state(ts, order, ts.len()).1[order[j]] == 0);
}

/// Among the first `k` spans of `order`, the `j`-th was packed onto lane `l`
/// and is the one whose end that lane records.
pub open spec fn ends_lane(ts: Seq<(i64, i64)>, order: Seq<int>, k: nat, l: int, j: int) -> bool {
    let st = pack_state(ts, order, k);
    &&& 0 <= j < k
    &&& st.1[order[j]] == l
    &&& interval_end(ts[order[j]]) == st.0[l]
}

/// Lane `l` records the end of one of the first `k` spans packed onto it.
pub open spec fn lane_witnessed(ts: Seq<(i64, i64)>, order: Seq<int>, k: nat, l: int) -> bool {
    exists|j: int| #[trigger] ends_lane(ts, order, k, l, j)
}

/// Every lane in use records the end of a span packed onto it.
proof fn lemma_lane_ends_witnessed(ts: Seq<(i64, i64)>, k: nat)
    requires
        k <= ts.len(),
    ensures
        forall|l: int|
            0 <= l < pack_state(ts, lane_order(ts), k).0.len() ==> #[trigger] lane_witnessed(
                ts,
                lane_order(ts),
                k,
                l,
            ),
    decreases k,
{
    if k > 0 {
        lemma_lane_ends_witnessed(ts, (k - 1) as nat);
        lemma_lane_order(ts);
        let order = lane_order(ts);
        let prev = pack_state(ts, order, (k - 1) as nat);
        let st = pack_state(ts, order, k);
        let i = order[k - 1];
        let l0 = first_free(prev.0, ts[i].0 as int);
        lemma_first_free_from(prev.0, ts[i].0 as int, 0);
        assert forall|l: int| 0 <= l < st.0.len() implies #[trigger] lane_witnessed(
            ts,
            order,
            k,
            l,
        ) by {
            if l == l0 {
                assert(ends_lane(ts, order, k, l, k - 1));
            } else {
                assert(lane_witnessed(ts, order, (k - 1) as nat, l));
                let j = choose|j: int| #[trigger] ends_lane(ts, order, (k - 1) as nat, l, j);
                assert(order[j] != i) by {
                    assert(comes_before(ts, order[j], order[k - 1]));
                }
                assert(ends_lane(ts, order, k, l, j));
            }
        }
    }
}

/// Once packed, a span keeps its lane while later spans are packed.
proof fn lemma_lane_kept(ts: Seq<(i64, i64)>, j: int, k: nat)
    requires
        0 <= j < k <= ts.len(),
    ensures
        pack_state(ts, lane_order(ts), k).1[lane_order(ts)[j]] == pack_state(
            ts,
            lane_order(ts),
            (j + 1) as nat,
        ).1[lane_order(ts)[j]],
    decreases k,
{
    if k > j + 1 {
        lemma_lane_kept(ts, j, (k - 1) as nat);
        lemma_lane_order(ts);
        let order = lane_order(ts);
        assert(order[j] != order[k - 1]) by {
            assert(comes_before(ts, order[j], order[k - 1]));
        }
    }
}

/// Each span gets the lowest-numbered lane free at its start: on every lower
/// lane, a span packed before it (earlier in start order) is still running
/// when it starts.
pub proof fn lemma_lowest_free_lane(ts: Seq<(i64, i64)>, a: int, l: int)
    requires
        0 <= a < ts.len(),
        0 <= l < packed_lane(ts, a),
    ensures
        exists|b: int|
            0 <= b < ts.len() && comes_before(ts, b, a) && packed_lane(ts, b) == l
                && interval_end(#[trigger] ts[b]) > ts[a].0,
{
    lemma_lane_order(ts);
    let order = lane_order(ts);
    let n = ts.len();
    assert(lists(order, a));
    let ja = choose|k: int| 0 <= k < order.len() && order[k] == a;
    let prev = pack_state(ts, order, ja as nat);
    let start = ts[a].0 as int;
    lemma_lane_kept(ts, ja, n);
    lemma_first_free_from(prev.0, start, 0);
    assert(packed_lane(ts, a) == first_free(prev.0, start));
    assert(l < prev.0.len() && prev.0[l] > start);
    lemma_lane_ends_witnessed(ts, ja as nat);
    assert(lane_witnessed(ts, order, ja as nat, l));
    let j = choose|j: int| #[trigger] ends_lane(ts, order, ja as nat, l, j);
    let b = order[j];
    assert(comes_before(ts, order[j], order[ja]));
    lemma_lane_kept(ts, j, n);
    lemma_lane_kept(ts, j, ja as nat);
    assert(packed_lane(ts, b) == l);
    assert(interval_end(ts[b]) > ts[a].0);
}

} // verus!
