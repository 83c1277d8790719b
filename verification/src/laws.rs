//! Session-wide laws: what the outbound event stream of a turn, and of a
//! whole session, is guaranteed to look like.
use vstd::prelude::*;
use crate::msg::EventView;
use crate::session::fragment_buffer;
use crate::session::fragment_event;
use crate::session::fragment_thinking;
use crate::session::opt_event_seq;
use crate::session::think_close;
use crate::session::think_open;
use crate::session::turn_buffer;
use crate::session::turn_events;
use crate::session::turn_thinking;

verus! {

// ---------------------------------------------------------------------------
// Counting events and fragments
// ---------------------------------------------------------------------------

/// How many events of the sequence are `Done`.
pub open spec fn count_done(evs: Seq<EventView>) -> nat
    decreases evs.len(),
{
    if evs.len() == 0 {
        0
    } else {
        (if evs[0] is Done { 1nat } else { 0nat }) + count_done(evs.skip(1))
    }
}

/// How many events of the sequence are `Thinking`.
pub open spec fn count_thinking(evs: Seq<EventView>) -> nat
    decreases evs.len(),
{
    if evs.len() == 0 {
        0
    } else {
        (if evs[0] is Thinking { 1nat } else { 0nat }) + count_thinking(evs.skip(1))
    }
}

/// How many events of the sequence are `DoneThinking`.
pub open spec fn count_done_thinking(evs: Seq<EventView>) -> nat
    decreases evs.len(),
{
    if evs.len() == 0 {
        0
    } else {
        (if evs[0] is DoneThinking { 1nat } else { 0nat }) + count_done_thinking(evs.skip(1))
    }
}

/// How many fragments of the stream equal the given text.
pub open spec fn count_fragments(frags: Seq<Seq<char>>, tok: Seq<char>) -> nat
    decreases frags.len(),
{
    if frags.len() == 0 {
        0
    } else {
        (if frags[0] == tok { 1nat } else { 0nat }) + count_fragments(frags.skip(1), tok)
    }
}

/// Whether the fragment is one of the two in-band markers.
pub open spec fn is_marker(tok: Seq<char>) -> bool {
    tok == think_open() || tok == think_close()
}

/// All the fragments of the stream, in order, as one text.
pub open spec fn concat_fragments(frags: Seq<Seq<char>>) -> Seq<char>
    decreases frags.len(),
{
    if frags.len() == 0 {
        Seq::empty()
    } else {
        frags[0] + concat_fragments(frags.skip(1))
    }
}

proof fn lemma_count_done_concat(a: Seq<EventView>, b: Seq<EventView>)
    ensures
        count_done(a + b) == count_done(a) + count_done(b),
    decreases a.len(),
{
    if a.len() == 0 {
        assert(a + b =~= b);
    } else {
        assert((a + b)[0] == a[0]);
        assert((a + b).skip(1) =~= a.skip(1) + b);
        lemma_count_done_concat(a.skip(1), b);
    }
}

// ---------------------------------------------------------------------------
// One Done per completed turn
// ---------------------------------------------------------------------------

/// Law: a completed turn emits exactly one `Done` event, whatever the
/// fragment stream and the thinking flag held on entry.
pub proof fn lemma_turn_emits_one_done(thinking: bool, frags: Seq<Seq<char>>)
    ensures
        count_done(turn_events(thinking, frags)) == 1,
    decreases frags.len(),
{
    if frags.len() == 0 {
        assert(turn_events(thinking, frags) == seq![EventView::Done]);
        assert(seq![EventView::Done].skip(1) =~= Seq::<EventView>::empty());
        assert(count_done(Seq::<EventView>::empty()) == 0);
    } else {
        let head = opt_event_seq(fragment_event(thinking, frags[0]));
        let rest = turn_events(fragment_thinking(thinking, frags[0]), frags.skip(1));
        lemma_turn_emits_one_done(fragment_thinking(thinking, frags[0]), frags.skip(1));
        lemma_count_done_concat(head, rest);
        match fragment_event(thinking, frags[0]) {
            Some(ev) => {
                assert(head =~= seq![ev]);
                assert(!(ev is Done));
                assert(seq![ev].skip(1) =~= Seq::<EventView>::empty());
                assert(count_done(Seq::<EventView>::empty()) == 0);
                assert(count_done(head) == 0);
            }
            None => {
                assert(head =~= Seq::<EventView>::empty());
                assert(count_done(head) == 0);
            }
        }
    }
}

/// The events of a whole session whose prompts were all answered to
/// completion: each turn starts with the thinking flag down and its
/// events follow the earlier turns' events in order.
pub open spec fn session_events(turns: Seq<Seq<Seq<char>>>) -> Seq<EventView>
    decreases turns.len(),
{
    if turns.len() == 0 {
        Seq::empty()
    } else {
        turn_events(false, turns[0]) + session_events(turns.skip(1))
    }
}

/// Law: over a whole session, the number of `Done` events emitted equals
/// the number of prompts answered to completion, however each turn's
/// fragment stream ran.
pub proof fn lemma_one_done_per_prompt(turns: Seq<Seq<Seq<char>>>)
    ensures
        count_done(session_events(turns)) == turns.len(),
    decreases turns.len(),
{
    if turns.len() == 0 {
    } else {
        lemma_turn_emits_one_done(false, turns[0]);
        lemma_one_done_per_prompt(turns.skip(1));
        lemma_count_done_concat(turn_events(false, turns[0]), session_events(turns.skip(1)));
    }
}

// ---------------------------------------------------------------------------
// Marker events match marker fragments, and never leak as tokens
// ---------------------------------------------------------------------------

/// Law: `Thinking` is emitted exactly once per occurrence of the opening
/// marker in the stream, and `DoneThinking` exactly once per occurrence
/// of the closing marker.
pub proof fn lemma_marker_event_counts(thinking: bool, frags: Seq<Seq<char>>)
    ensures
        count_thinking(turn_events(thinking, frags)) == count_fragments(frags, think_open()),
        count_done_thinking(turn_events(thinking, frags)) == count_fragments(frags, think_close()),
    decreases frags.len(),
{
    if frags.len() == 0 {
        assert(turn_events(thinking, frags) == seq![EventView::Done]);
        assert(seq![EventView::Done].skip(1) =~= Seq::<EventView>::empty());
        assert(count_thinking(Seq::<EventView>::empty()) == 0);
        assert(count_done_thinking(Seq::<EventView>::empty()) == 0);
        assert(count_fragments(frags, think_open()) == 0);
        assert(count_fragments(frags, think_close()) == 0);
    } else {
        let head = opt_event_seq(fragment_event(thinking, frags[0]));
        let rest = turn_events(fragment_thinking(thinking, frags[0]), frags.skip(1));
        lemma_marker_event_counts(fragment_thinking(thinking, frags[0]), frags.skip(1));
        lemma_count_split(head, rest);
        match fragment_event(thinking, frags[0]) {
            Some(ev) => {
                assert(head =~= seq![ev]);
                assert(seq![ev].skip(1) =~= Seq::<EventView>::empty());
                assert(count_thinking(Seq::<EventView>::empty()) == 0);
                assert(count_done_thinking(Seq::<EventView>::empty()) == 0);
                assert(count_thinking(head) == (if ev is Thinking { 1nat } else { 0nat }));
                assert(count_done_thinking(head) == (if ev is DoneThinking { 1nat } else { 0nat }));
                assert((ev is Thinking) == (frags[0] == think_open()));
                assert((ev is DoneThinking) == (frags[0] == think_close()));
            }
            None => {
                assert(head =~= Seq::<EventView>::empty());
                assert(count_thinking(head) == 0);
                assert(count_done_thinking(head) == 0);
            }
        }
        assert(count_fragments(frags, think_open()) == (if frags[0] == think_open() {
            1nat
        } else {
            0nat
        }) + count_fragments(frags.skip(1), think_open()));
        assert(count_fragments(frags, think_close()) == (if frags[0] == think_close() {
            1nat
        } else {
            0nat
        }) + count_fragments(frags.skip(1), think_close()));
    }
}

proof fn lemma_count_split(a: Seq<EventView>, b: Seq<EventView>)
    ensures
        count_thinking(a + b) == count_thinking(a) + count_thinking(b),
        count_done_thinking(a + b) == count_done_thinking(a) + count_done_thinking(b),
    decreases a.len(),
{
    if a.len() == 0 {
        assert(a + b =~= b);
    } else {
        assert((a + b)[0] == a[0]);
        assert((a + b).skip(1) =~= a.skip(1) + b);
        lemma_count_split(a.skip(1), b);
    }
}

/// Whether no `Token` event of the sequence carries a marker as its
/// payload.
pub open spec fn no_marker_tokens(evs: Seq<EventView>) -> bool {
    forall|i: int|
        0 <= i < evs.len() ==> match #[trigger] evs[i] {
            EventView::Token(t) => !is_marker(t),
            _ => true,
        }
}

/// Law: the markers never themselves appear as `Token` payloads.
pub proof fn lemma_markers_never_tokens(thinking: bool, frags: Seq<Seq<char>>)
    ensures
        no_marker_tokens(turn_events(thinking, frags)),
    decreases frags.len(),
{
    if frags.len() == 0 {
        assert(turn_events(thinking, frags) == seq![EventView::Done]);
    } else {
        let head = opt_event_seq(fragment_event(thinking, frags[0]));
        let rest = turn_events(fragment_thinking(thinking, frags[0]), frags.skip(1));
        lemma_markers_never_tokens(fragment_thinking(thinking, frags[0]), frags.skip(1));
        assert forall|i: int| 0 <= i < (head + rest).len() implies match #[trigger] (head
            + rest)[i] {
            EventView::Token(t) => !is_marker(t),
            _ => true,
        } by {
            if i < head.len() {
                assert((head + rest)[i] == head[i]);
            } else {
                assert((head + rest)[i] == rest[i - head.len()]);
            }
        }
    }
}

// ---------------------------------------------------------------------------
// Thinking text never reaches the history
// ---------------------------------------------------------------------------

proof fn lemma_turn_split(thinking: bool, buffer: Seq<char>, a: Seq<Seq<char>>, b: Seq<Seq<char>>)
    ensures
        turn_thinking(thinking, a + b) == turn_thinking(turn_thinking(thinking, a), b),
        turn_buffer(thinking, buffer, a + b) == turn_buffer(
            turn_thinking(thinking, a),
            turn_buffer(thinking, buffer, a),
            b,
        ),
    decreases a.len(),
{
    if a.len() == 0 {
        assert(a + b =~= b);
    } else {
        assert((a + b)[0] == a[0]);
        assert((a + b).skip(1) =~= a.skip(1) + b);
        lemma_turn_split(
            fragment_thinking(thinking, a[0]),
            fragment_buffer(thinking, buffer, a[0]),
            a.skip(1),
            b,
        );
    }
}

proof fn lemma_plain_run(buffer: Seq<char>, frags: Seq<Seq<char>>)
    requires
        forall|i: int| 0 <= i < frags.len() ==> !is_marker(#[trigger] frags[i]),
    ensures
        turn_thinking(false, frags) == false,
        turn_buffer(false, buffer, frags) == buffer + concat_fragments(frags),
    decreases frags.len(),
{
    if frags.len() == 0 {
        assert(buffer + concat_fragments(frags) =~= buffer);
    } else {
        assert(!is_marker(frags[0]));
        lemma_plain_run(buffer + frags[0], frags.skip(1));
        assert(buffer + frags[0] + concat_fragments(frags.skip(1)) =~= buffer + concat_fragments(
            frags,
        ));
    }
}

proof fn lemma_thinking_run(buffer: Seq<char>, frags: Seq<Seq<char>>)
    requires
        forall|i: int| 0 <= i < frags.len() ==> !is_marker(#[trigger] frags[i]),
    ensures
        turn_thinking(true, frags) == true,
        turn_buffer(true, buffer, frags) == buffer,
    decreases frags.len(),
{
    if frags.len() == 0 {
    } else {
        assert(!is_marker(frags[0]));
        lemma_thinking_run(buffer, frags.skip(1));
    }
}

/// Law: text streamed between the opening and the closing marker never
/// reaches the text a turn stores as its assistant turn — and so never
/// reaches any later serialized-history prefix, which is built from the
/// stored turns alone. For a turn whose stream is plain text around one
/// thinking span, the stored text is exactly the text after the span.
pub proof fn lemma_thinking_text_never_stored(
    before: Seq<Seq<char>>,
    inside: Seq<Seq<char>>,
    after: Seq<Seq<char>>,
    buffer: Seq<char>,
)
    requires
        forall|i: int| 0 <= i < before.len() ==> !is_marker(#[trigger] before[i]),
        forall|i: int| 0 <= i < inside.len() ==> !is_marker(#[trigger] inside[i]),
        forall|i: int| 0 <= i < after.len() ==> !is_marker(#[trigger] after[i]),
    ensures
        turn_buffer(
            false,
            buffer,
            before + seq![think_open()] + inside + seq![think_close()] + after,
        ) == concat_fragments(after),
{
    let open_frag = seq![think_open()];
    let close_frag = seq![think_close()];
    let whole = before + open_frag + inside + close_frag + after;
    lemma_plain_run(buffer, before);
    lemma_turn_split(false, buffer, before, open_frag + inside + close_frag + after);
    assert(whole =~= before + (open_frag + inside + close_frag + after));
    let buf1 = turn_buffer(false, buffer, before);
    assert(open_frag + inside + close_frag + after =~= open_frag + (inside + (close_frag
        + after)));
    assert((open_frag + (inside + (close_frag + after))).skip(1) =~= inside + (close_frag
        + after));
    assert(turn_thinking(false, open_frag + (inside + (close_frag + after)))
        == turn_thinking(true, inside + (close_frag + after)));
    assert(turn_buffer(false, buf1, open_frag + (inside + (close_frag + after)))
        == turn_buffer(true, buf1, inside + (close_frag + after)));
    lemma_thinking_run(buf1, inside);
    lemma_turn_split(true, buf1, inside, close_frag + after);
    assert((close_frag + after)[0] == think_close());
    assert((close_frag + after).skip(1) =~= after);
    assert(turn_buffer(true, buf1, close_frag + after) == turn_buffer(
        false,
        Seq::<char>::empty(),
        after,
    ));
    lemma_plain_run(Seq::<char>::empty(), after);
    assert(Seq::<char>::empty() + concat_fragments(after) =~= concat_fragments(after));
}

} // verus!
