//! Framing for a growing, deliberately never-closed Chrome-trace JSON array:
//! `[\n  {...},\n  {...},\n` with no final `]`. The Chrome Trace Event format
//! tolerates an unterminated array with a trailing comma, so a trace can be
//! appended to after every tool invocation and opened at any point.
use crate::text::{append_chars, chars_of, string_from_chars};
use vstd::prelude::*;

verus! {

/// The lines for a batch of events, one `  EVENT,` line each.
pub open spec fn event_lines(events: Seq<Seq<char>>) -> Seq<char>
    decreases events.len(),
{
    if events.len() == 0 {
        seq![]
    } else {
        event_lines(events.drop_last()) + "  "@ + events.last() + ",\n"@
    }
}

/// What one append adds to the trace file: the array's opening line when the
/// file is new, then the batch's lines.
pub open spec fn appended_text(is_new: bool, events: Seq<Seq<char>>) -> Seq<char> {
    if is_new {
        "[\n"@ + event_lines(events)
    } else {
        event_lines(events)
    }
}

/// The texts of the serialized events.
pub open spec fn texts(events: Seq<String>) -> Seq<Seq<char>> {
    events.map_values(|e: String| e@)
}

/// The text to append to the trace file for a batch of already-serialized
/// events (`is_new`: the file does not exist yet).
pub fn append_text(is_new: bool, events: &[String]) -> (r: String)
    ensures
        r@ == appended_text(is_new, texts(events@)),
{
    proof {
        reveal_strlit("[\n");
        reveal_strlit("  ");
        reveal_strlit(",\n");
    }
    let mut out: Vec<char> = Vec::new();
    if is_new {
        append_chars(&mut out, chars_of("[\n").as_slice());
    }
    let ghost head = out@;
    let mut i: usize = 0;
    assert(texts(events@).take(0) =~= Seq::<Seq<char>>::empty());
    assert(out@ =~= head + event_lines(texts(events@).take(0)));
    while i < events.len()
        invariant
            i <= events@.len(),
            head == (if is_new { "[\n"@ } else { Seq::<char>::empty() }),
            out@ == head + event_lines(texts(events@).take(i as int)),
        decreases events@.len() - i,
    {
        append_chars(&mut out, chars_of("  ").as_slice());
        append_chars(&mut out, chars_of(events[i].as_str()).as_slice());
        append_chars(&mut out, chars_of(",\n").as_slice());
        proof {
            let t = texts(events@);
            assert(t.take(i + 1).drop_last() =~= t.take(i as int));
            assert(t.take(i + 1).last() == events@[i as int]@);
            assert(out@ =~= head + event_lines(t.take(i + 1)));
        }
        i = i + 1;
    }
    proof {
        assert(texts(events@).take(i as int) =~= texts(events@));
    }
    string_from_chars(out.as_slice())
}

/// Lines of a joined batch are the lines of its parts, one after the other.
pub proof fn lemma_event_lines_concat(a: Seq<Seq<char>>, b: Seq<Seq<char>>)
    ensures
        event_lines(a + b) == event_lines(a) + event_lines(b),
    decreases b.len(),
{
    if b.len() == 0 {
        assert(a + b =~= a);
    } else {
        assert((a + b).drop_last() =~= a + b.drop_last());
        lemma_event_lines_concat(a, b.drop_last());
        assert(event_lines(a + b) =~= event_lines(a) + event_lines(b));
    }
}

/// Appending one batch to a new file and then another to the existing file
/// leaves the same text as appending both batches at once: the file stays a
/// single open array however many invocations append to it.
pub proof fn lemma_appends_compose(a: Seq<Seq<char>>, b: Seq<Seq<char>>)
    ensures
        appended_text(true, a) + appended_text(false, b) == appended_text(true, a + b),
{
    lemma_event_lines_concat(a, b);
    assert(appended_text(true, a) + appended_text(false, b) =~= appended_text(true, a + b));
}

} // verus!
