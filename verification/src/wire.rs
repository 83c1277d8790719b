//! The wire format: canonical JSON text for conversation history and
//! outbound events, with a parser for the history format.
use vstd::prelude::*;
use vstd::string::StrSliceExecFns;
use vstd::string::StringExecFns;
use crate::msg::Event;
use crate::msg::EventView;
use crate::msg::MessageType;
use crate::msg::MsgView;

verus! {

// ---------------------------------------------------------------------------
// Canonical JSON text, spec side
// ---------------------------------------------------------------------------

/// The lower-case hexadecimal digit for a value below sixteen.
pub open spec fn hex_digit(d: int) -> char {
    if d == 0 { '0' } else if d == 1 { '1' } else if d == 2 { '2' } else if d == 3 { '3' }
    else if d == 4 { '4' } else if d == 5 { '5' } else if d == 6 { '6' } else if d == 7 { '7' }
    else if d == 8 { '8' } else if d == 9 { '9' } else if d == 10 { 'a' } else if d == 11 { 'b' }
    else if d == 12 { 'c' } else if d == 13 { 'd' } else if d == 14 { 'e' } else { 'f' }
}

/// The value of a lower-case hexadecimal digit, or -1 for any other character.
pub open spec fn hex_val(c: char) -> int {
    if c == '0' { 0 } else if c == '1' { 1 } else if c == '2' { 2 } else if c == '3' { 3 }
    else if c == '4' { 4 } else if c == '5' { 5 } else if c == '6' { 6 } else if c == '7' { 7 }
    else if c == '8' { 8 } else if c == '9' { 9 } else if c == 'a' { 10 } else if c == 'b' { 11 }
    else if c == 'c' { 12 } else if c == 'd' { 13 } else if c == 'e' { 14 } else if c == 'f' { 15 }
    else { -1 }
}

/// How one character appears inside a JSON string literal: quotes and
/// backslashes get a two-character escape, control characters a
/// six-character `\u00XX` escape, everything else stands as itself.
pub open spec fn escape_char(c: char) -> Seq<char> {
    if c == '"' {
        seq!['\\', '"']
    } else if c == '\\' {
        seq!['\\', '\\']
    } else if (c as u32) < 32 {
        seq!['\\', 'u', '0', '0', hex_digit((c as u32) as int / 16), hex_digit((c as u32) as int % 16)]
    } else {
        seq![c]
    }
}

/// The body of a JSON string literal holding the given text.
pub open spec fn escape_seq(s: Seq<char>) -> Seq<char>
    decreases s.len(),
{
    if s.len() == 0 {
        Seq::empty()
    } else {
        escape_char(s[0]) + escape_seq(s.skip(1))
    }
}

/// A complete JSON string literal holding the given text.
pub open spec fn quoted(s: Seq<char>) -> Seq<char> {
    seq!['"'] + escape_seq(s) + seq!['"']
}

/// The opening of a serialized user turn, up to its string value.
pub open spec fn user_label() -> Seq<char> {
    seq!['{', '"', 'U', 's', 'e', 'r', '"', ':']
}

/// The opening of a serialized assistant turn, up to its string value.
pub open spec fn assistant_label() -> Seq<char> {
    seq!['{', '"', 'A', 's', 's', 'i', 's', 't', 'a', 'n', 't', '"', ':']
}

/// One serialized turn: an object with the role as its single key.
pub open spec fn message_json(m: MsgView) -> Seq<char> {
    match m {
        MsgView::User(t) => user_label() + quoted(t) + seq!['}'],
        MsgView::Assistant(t) => assistant_label() + quoted(t) + seq!['}'],
    }
}

/// The serialized turns joined with commas.
pub open spec fn history_items_json(hs: Seq<MsgView>) -> Seq<char>
    decreases hs.len(),
{
    if hs.len() == 0 {
        Seq::empty()
    } else if hs.len() == 1 {
        message_json(hs[0])
    } else {
        message_json(hs[0]) + seq![','] + history_items_json(hs.skip(1))
    }
}

/// A complete serialized history: a JSON array of turns.
pub open spec fn history_json(hs: Seq<MsgView>) -> Seq<char> {
    seq!['['] + history_items_json(hs) + seq![']']
}

/// One serialized outbound event, exactly as it crosses the wire.
pub open spec fn event_json(e: EventView) -> Seq<char> {
    match e {
        EventView::Token(t) => "{\"event\":\"Token\",\"token\":"@ + quoted(t) + "}"@,
        EventView::Thinking => "{\"event\":\"Thinking\"}"@,
        EventView::DoneThinking => "{\"event\":\"DoneThinking\"}"@,
        EventView::Done => "{\"event\":\"Done\"}"@,
    }
}

/// The prompt handed to the engine: the serialized history as a fenced
/// context block, then the raw user prompt.
pub open spec fn augmented_prompt_view(history_text: Seq<char>, prompt: Seq<char>) -> Seq<char> {
    "```CHAT_HISTORY\n"@ + history_text + "\n```\n\n\n"@ + prompt
}

// ---------------------------------------------------------------------------
// Serialization, exec side
// ---------------------------------------------------------------------------

/// Relies on String::push, which appends the given character to the end
/// of the string.
#[verifier::external_body]
fn push_char(s: &mut String, c: char)
    ensures
        final(s)@ == old(s)@ + seq![c],
{
    s.push(c);
}

/// The lower-case hexadecimal digit for a value below sixteen.
fn hex_digit_exec(d: u32) -> (c: char)
    requires
        d < 16,
    ensures
        c == hex_digit(d as int),
{
    if d == 0 { '0' } else if d == 1 { '1' } else if d == 2 { '2' } else if d == 3 { '3' }
    else if d == 4 { '4' } else if d == 5 { '5' } else if d == 6 { '6' } else if d == 7 { '7' }
    else if d == 8 { '8' } else if d == 9 { '9' } else if d == 10 { 'a' } else if d == 11 { 'b' }
    else if d == 12 { 'c' } else if d == 13 { 'd' } else if d == 14 { 'e' } else { 'f' }
}

proof fn lemma_escape_snoc(s: Seq<char>, c: char)
    ensures
        escape_seq(s.push(c)) == escape_seq(s) + escape_char(c),
    decreases s.len(),
{
    if s.len() == 0 {
        assert(s.push(c).skip(1) =~= Seq::<char>::empty());
        assert(s.push(c)[0] == c);
        assert(escape_seq(Seq::<char>::empty()) == Seq::<char>::empty());
        assert(escape_seq(s.push(c)) == escape_char(c) + escape_seq(s.push(c).skip(1)));
        assert(escape_seq(s.push(c)) =~= escape_seq(s) + escape_char(c));
    } else {
        assert(s.push(c).skip(1) =~= s.skip(1).push(c));
        lemma_escape_snoc(s.skip(1), c);
        assert(escape_seq(s.push(c)) =~= escape_seq(s) + escape_char(c));
    }
}

/// Appends the escaped body of a JSON string literal holding `s`.
fn push_escaped(out: &mut String, s: &str)
    ensures
        final(out)@ == old(out)@ + escape_seq(s@),
{
    let n = s.unicode_len();
    let mut i: usize = 0;
    while i < n
        invariant
            i <= n,
            n == s@.len(),
            out@ == old(out)@ + escape_seq(s@.take(i as int)),
        decreases n - i,
    {
        let c = s.get_char(i);
        if c == '"' {
            push_char(out, '\\');
            push_char(out, '"');
        } else if c == '\\' {
            push_char(out, '\\');
            push_char(out, '\\');
        } else if (c as u32) < 32 {
            let code = c as u32;
            push_char(out, '\\');
            push_char(out, 'u');
            push_char(out, '0');
            push_char(out, '0');
            push_char(out, hex_digit_exec(code / 16));
            push_char(out, hex_digit_exec(code % 16));
        } else {
            push_char(out, c);
        }
        proof {
            lemma_escape_snoc(s@.take(i as int), s@[i as int]);
            assert(s@.take(i as int).push(s@[i as int]) =~= s@.take(i + 1 as int));
            assert(out@ =~= old(out)@ + escape_seq(s@.take(i + 1 as int)));
        }
        i += 1;
    }
    proof {
        assert(s@.take(n as int) =~= s@);
    }
}

/// Appends a complete JSON string literal holding `s`.
fn push_quoted(out: &mut String, s: &str)
    ensures
        final(out)@ == old(out)@ + quoted(s@),
{
    push_char(out, '"');
    push_escaped(out, s);
    push_char(out, '"');
    proof {
        assert(out@ =~= old(out)@ + quoted(s@));
    }
}

proof fn lemma_labels()
    ensures
        "{\"User\":"@ == user_label(),
        "{\"Assistant\":"@ == assistant_label(),
{
    reveal_strlit("{\"User\":");
    reveal_strlit("{\"Assistant\":");
    assert("{\"User\":"@ =~= user_label());
    assert("{\"Assistant\":"@ =~= assistant_label());
}

/// Appends one serialized turn.
fn push_message(out: &mut String, m: &MessageType)
    ensures
        final(out)@ == old(out)@ + message_json(m@),
{
    proof {
        lemma_labels();
    }
    match m {
        MessageType::User(t) => {
            out.append("{\"User\":");
            push_quoted(out, t.as_str());
        }
        MessageType::Assistant(t) => {
            out.append("{\"Assistant\":");
            push_quoted(out, t.as_str());
        }
    }
    push_char(out, '}');
    proof {
        assert(out@ =~= old(out)@ + message_json(m@));
    }
}

proof fn lemma_items_snoc(hs: Seq<MsgView>, m: MsgView)
    requires
        hs.len() > 0,
    ensures
        history_items_json(hs.push(m)) == history_items_json(hs) + seq![','] + message_json(m),
    decreases hs.len(),
{
    if hs.len() == 1 {
        assert(hs.push(m).skip(1) =~= seq![m]);
        assert(history_items_json(seq![m]) == message_json(m));
        assert(history_items_json(hs.push(m)) =~= history_items_json(hs) + seq![','] + message_json(m));
    } else {
        assert(hs.push(m).skip(1) =~= hs.skip(1).push(m));
        lemma_items_snoc(hs.skip(1), m);
        assert(history_items_json(hs.push(m)) =~= history_items_json(hs) + seq![','] + message_json(m));
    }
}

/// Serializes the conversation history as a JSON array of turns, the
/// canonical text that `parse_history` reads back.
pub fn serialize_history(h: &Vec<MessageType>) -> (r: String)
    ensures
        r@ == history_json(h.deep_view()),
{
    let ghost hs = h.deep_view();
    let mut out = String::new();
    push_char(&mut out, '[');
    let mut i: usize = 0;
    while i < h.len()
        invariant
            i <= h.len(),
            hs == h.deep_view(),
            hs.len() == h.len(),
            out@ == seq!['['] + history_items_json(hs.take(i as int)),
        decreases h.len() - i,
    {
        if i > 0 {
            push_char(&mut out, ',');
        }
        push_message(&mut out, &h[i]);
        proof {
            assert(hs.take(i as int).push(hs[i as int]) =~= hs.take(i + 1 as int));
            if i > 0 {
                lemma_items_snoc(hs.take(i as int), hs[i as int]);
            } else {
                assert(hs.take(1int) =~= seq![hs[0]]);
            }
            assert(out@ =~= seq!['['] + history_items_json(hs.take(i + 1 as int)));
        }
        i += 1;
    }
    push_char(&mut out, ']');
    proof {
        assert(hs.take(h.len() as int) =~= hs);
        assert(out@ =~= history_json(hs));
    }
    out
}

/// Serializes one outbound event exactly as it crosses the wire.
pub fn serialize_event(e: &Event) -> (r: String)
    ensures
        r@ == event_json(e@),
{
    match e {
        Event::Token { token } => {
            let mut out = String::new();
            out.append("{\"event\":\"Token\",\"token\":");
            push_quoted(&mut out, token.as_str());
            out.append("}");
            proof {
                assert(out@ =~= event_json(e@));
            }
            out
        }
        Event::Thinking => "{\"event\":\"Thinking\"}".to_owned(),
        Event::DoneThinking => "{\"event\":\"DoneThinking\"}".to_owned(),
        Event::Done => "{\"event\":\"Done\"}".to_owned(),
    }
}

// ---------------------------------------------------------------------------
// Parsing the canonical history text, spec side
// ---------------------------------------------------------------------------

/// The control character with the given code.
pub open spec fn control_char(code: int) -> char {
    (code as u32) as char
}

/// Prepends a decoded character to a string-body parse.
pub open spec fn prepend_char(c: char, r: Option<(Seq<char>, Seq<char>)>) -> Option<
    (Seq<char>, Seq<char>),
> {
    match r {
        Some((t, rest)) => Some((seq![c] + t, rest)),
        None => None,
    }
}

/// Reads the body of a JSON string literal in the canonical form this
/// module writes, up to its closing quote: the decoded text and what
/// follows the quote.
pub open spec fn parse_str_body(s: Seq<char>) -> Option<(Seq<char>, Seq<char>)>
    decreases s.len(),
{
    if s.len() == 0 {
        None
    } else if s[0] == '"' {
        Some((Seq::empty(), s.skip(1)))
    } else if s[0] == '\\' {
        if s.len() >= 2 && s[1] == '"' {
            prepend_char('"', parse_str_body(s.skip(2)))
        } else if s.len() >= 2 && s[1] == '\\' {
            prepend_char('\\', parse_str_body(s.skip(2)))
        } else if s.len() >= 6 && s[1] == 'u' && s[2] == '0' && s[3] == '0' && hex_val(s[4]) >= 0
            && hex_val(s[5]) >= 0 && hex_val(s[4]) * 16 + hex_val(s[5]) < 32 {
            prepend_char(
                control_char(hex_val(s[4]) * 16 + hex_val(s[5])),
                parse_str_body(s.skip(6)),
            )
        } else {
            None
        }
    } else if (s[0] as u32) < 32 {
        None
    } else {
        prepend_char(s[0], parse_str_body(s.skip(1)))
    }
}

/// Reads a complete JSON string literal in canonical form.
pub open spec fn parse_quoted(s: Seq<char>) -> Option<(Seq<char>, Seq<char>)> {
    if s.len() >= 1 && s[0] == '"' {
        parse_str_body(s.skip(1))
    } else {
        None
    }
}

/// Reads one serialized turn and what follows it.
pub open spec fn parse_message(s: Seq<char>) -> Option<(MsgView, Seq<char>)> {
    if s.len() >= 8 && s.take(8) == user_label() {
        match parse_quoted(s.skip(8)) {
            Some((t, rest)) => if rest.len() >= 1 && rest[0] == '}' {
                Some((MsgView::User(t), rest.skip(1)))
            } else {
                None
            },
            None => None,
        }
    } else if s.len() >= 13 && s.take(13) == assistant_label() {
        match parse_quoted(s.skip(13)) {
            Some((t, rest)) => if rest.len() >= 1 && rest[0] == '}' {
                Some((MsgView::Assistant(t), rest.skip(1)))
            } else {
                None
            },
            None => None,
        }
    } else {
        None
    }
}

proof fn lemma_parse_body_shrinks(s: Seq<char>)
    ensures
        parse_str_body(s) matches Some((t, rest)) ==> rest.len() < s.len(),
    decreases s.len(),
{
    if s.len() == 0 {
    } else if s[0] == '"' {
    } else if s[0] == '\\' {
        if s.len() >= 2 && (s[1] == '"' || s[1] == '\\') {
            lemma_parse_body_shrinks(s.skip(2));
        } else if s.len() >= 6 {
            lemma_parse_body_shrinks(s.skip(6));
        }
    } else {
        lemma_parse_body_shrinks(s.skip(1));
    }
}

proof fn lemma_parse_message_shrinks(s: Seq<char>)
    ensures
        parse_message(s) matches Some((m, rest)) ==> rest.len() < s.len(),
{
    lemma_parse_body_shrinks(s.skip(8).skip(1));
    lemma_parse_body_shrinks(s.skip(13).skip(1));
}

/// Reads the comma-separated turns of a serialized history, up to the
/// closing bracket that must end the text.
pub open spec fn parse_items(s: Seq<char>) -> Option<Seq<MsgView>>
    decreases s.len(),
    via parse_items_decreases
{
    match parse_message(s) {
        Some((m, rest)) => {
            if rest.len() >= 1 && rest[0] == ',' {
                match parse_items(rest.skip(1)) {
                    Some(ms) => Some(seq![m] + ms),
                    None => None,
                }
            } else if rest.len() == 1 && rest[0] == ']' {
                Some(seq![m])
            } else {
                None
            }
        }
        None => None,
    }
}

#[via_fn]
proof fn parse_items_decreases(s: Seq<char>) {
    lemma_parse_message_shrinks(s);
}

/// Reads a complete serialized history in the canonical form that
/// `serialize_history` writes.
pub open spec fn parse_history_view(s: Seq<char>) -> Option<Seq<MsgView>> {
    if s.len() >= 2 && s[0] == '[' {
        if s.len() == 2 && s[1] == ']' {
            Some(Seq::empty())
        } else {
            parse_items(s.skip(1))
        }
    } else {
        None
    }
}

// ---------------------------------------------------------------------------
// Round trip: parsing undoes serializing
// ---------------------------------------------------------------------------

proof fn lemma_round_trip_body(t: Seq<char>, rest: Seq<char>)
    ensures
        parse_str_body(escape_seq(t) + seq!['"'] + rest) == Some((t, rest)),
    decreases t.len(),
{
    let s = escape_seq(t) + seq!['"'] + rest;
    if t.len() == 0 {
        assert(s =~= seq!['"'] + rest);
        assert(s[0] == '"');
        assert(s.skip(1) =~= rest);
    } else {
        let c = t[0];
        let s1 = escape_seq(t.skip(1)) + seq!['"'] + rest;
        lemma_round_trip_body(t.skip(1), rest);
        assert(escape_seq(t) == escape_char(c) + escape_seq(t.skip(1)));
        assert(seq![c] + t.skip(1) =~= t);
        if c == '"' {
            assert(s[0] == '\\' && s[1] == '"' && s.len() >= 2);
            assert(s.skip(2) =~= s1);
        } else if c == '\\' {
            assert(s[0] == '\\' && s[1] == '\\' && s.len() >= 2);
            assert(s.skip(2) =~= s1);
        } else if (c as u32) < 32 {
            let hi = (c as u32) as int / 16;
            let lo = (c as u32) as int % 16;
            assert(s.len() >= 6);
            assert(s[0] == '\\' && s[1] == 'u' && s[2] == '0' && s[3] == '0');
            assert(s[4] == hex_digit(hi) && s[5] == hex_digit(lo));
            assert(hex_val(hex_digit(hi)) == hi && hex_val(hex_digit(lo)) == lo);
            assert(hi * 16 + lo == c as u32);
            vstd::utf8::char_u32_cast(c, c as u32);
            assert(control_char(hi * 16 + lo) == c);
            assert(s.skip(6) =~= s1);
        } else {
            assert(s[0] == c);
            assert(s.skip(1) =~= s1);
        }
    }
}

proof fn lemma_round_trip_quoted(t: Seq<char>, rest: Seq<char>)
    ensures
        parse_quoted(quoted(t) + rest) == Some((t, rest)),
{
    let s = quoted(t) + rest;
    assert(s[0] == '"');
    assert(s.skip(1) =~= escape_seq(t) + seq!['"'] + rest);
    lemma_round_trip_body(t, rest);
}

proof fn lemma_round_trip_message(m: MsgView, rest: Seq<char>)
    ensures
        parse_message(message_json(m) + rest) == Some((m, rest)),
{
    let s = message_json(m) + rest;
    match m {
        MsgView::User(t) => {
            assert(s.take(8) =~= user_label());
            assert(s.skip(8) =~= quoted(t) + (seq!['}'] + rest));
            lemma_round_trip_quoted(t, seq!['}'] + rest);
            assert((seq!['}'] + rest)[0] == '}');
            assert((seq!['}'] + rest).skip(1) =~= rest);
        }
        MsgView::Assistant(t) => {
            assert(s.len() >= 14);
            assert(s.take(8)[2] == 'A');
            assert(user_label()[2] == 'U');
            assert(s.take(8) != user_label());
            assert(s.take(13) =~= assistant_label());
            assert(s.skip(13) =~= quoted(t) + (seq!['}'] + rest));
            lemma_round_trip_quoted(t, seq!['}'] + rest);
            assert((seq!['}'] + rest)[0] == '}');
            assert((seq!['}'] + rest).skip(1) =~= rest);
        }
    }
}

proof fn lemma_round_trip_items(hs: Seq<MsgView>)
    requires
        hs.len() > 0,
    ensures
        parse_items(history_items_json(hs) + seq![']']) == Some(hs),
    decreases hs.len(),
{
    let s = history_items_json(hs) + seq![']'];
    if hs.len() == 1 {
        lemma_round_trip_message(hs[0], seq![']']);
        assert(s =~= message_json(hs[0]) + seq![']']);
        assert(seq![']'][0] == ']');
        assert(seq![hs[0]] =~= hs);
    } else {
        let tail = history_items_json(hs.skip(1)) + seq![']'];
        lemma_round_trip_message(hs[0], seq![','] + tail);
        assert(s =~= message_json(hs[0]) + (seq![','] + tail));
        assert((seq![','] + tail)[0] == ',');
        assert((seq![','] + tail).skip(1) =~= tail);
        lemma_round_trip_items(hs.skip(1));
        assert(seq![hs[0]] + hs.skip(1) =~= hs);
    }
}

/// Law: re-parsing a serialized conversation history yields the same
/// ordered sequence of turns.
pub proof fn lemma_history_round_trip(hs: Seq<MsgView>)
    ensures
        parse_history_view(history_json(hs)) == Some(hs),
{
    let s = history_json(hs);
    if hs.len() == 0 {
        assert(s =~= seq!['[', ']']);
        assert(s.len() == 2 && s[0] == '[' && s[1] == ']');
    } else {
        assert(message_json(hs[0]).len() > 0);
        assert(history_items_json(hs).len() > 0);
        assert(s[0] == '[');
        assert(s.len() > 2);
        assert(s.skip(1) =~= history_items_json(hs) + seq![']']);
        lemma_round_trip_items(hs);
    }
}

// ---------------------------------------------------------------------------
// Parsing, exec side
// ---------------------------------------------------------------------------

fn to_chars(s: &str) -> (v: Vec<char>)
    ensures
        v@ == s@,
{
    let n = s.unicode_len();
    let mut v: Vec<char> = Vec::new();
    let mut i: usize = 0;
    while i < n
        invariant
            i <= n,
            n == s@.len(),
            v@ == s@.take(i as int),
        decreases n - i,
    {
        v.push(s.get_char(i));
        proof {
            assert(s@.take(i as int).push(s@[i as int]) =~= s@.take(i + 1 as int));
        }
        i += 1;
    }
    proof {
        assert(s@.take(n as int) =~= s@);
    }
    v
}

/// The value of a lower-case hexadecimal digit, if the character is one.
fn hex_val_exec(c: char) -> (r: Option<u32>)
    ensures
        match r {
            Some(d) => d < 16 && hex_val(c) == d as int,
            None => hex_val(c) < 0,
        },
{
    if c == '0' { Some(0) } else if c == '1' { Some(1) } else if c == '2' { Some(2) }
    else if c == '3' { Some(3) } else if c == '4' { Some(4) } else if c == '5' { Some(5) }
    else if c == '6' { Some(6) } else if c == '7' { Some(7) } else if c == '8' { Some(8) }
    else if c == '9' { Some(9) } else if c == 'a' { Some(10) } else if c == 'b' { Some(11) }
    else if c == 'c' { Some(12) } else if c == 'd' { Some(13) } else if c == 'e' { Some(14) }
    else if c == 'f' { Some(15) } else { None }
}

/// Prepends already decoded text to a string-body parse.
spec fn prepend_text(p: Seq<char>, r: Option<(Seq<char>, Seq<char>)>) -> Option<
    (Seq<char>, Seq<char>),
> {
    match r {
        Some((t, rest)) => Some((p + t, rest)),
        None => None,
    }
}

/// Reads the body of a canonical JSON string literal starting at
/// `start`, returning the decoded text and the position after the
/// closing quote.
fn parse_str_body_exec(v: &Vec<char>, start: usize) -> (r: Option<(String, usize)>)
    requires
        start <= v@.len(),
    ensures
        match r {
            Some(p) => start <= p.1 <= v@.len() && parse_str_body(v@.skip(start as int)) == Some(
                (p.0@, v@.skip(p.1 as int)),
            ),
            None => parse_str_body(v@.skip(start as int)) is None,
        },
{
    let mut acc = String::new();
    let mut pos = start;
    loop
        invariant
            start <= pos <= v@.len(),
            parse_str_body(v@.skip(start as int)) == prepend_text(
                acc@,
                parse_str_body(v@.skip(pos as int)),
            ),
        decreases v@.len() - pos,
    {
        let ghost s = v@.skip(pos as int);
        if pos == v.len() {
            proof {
                assert(s.len() == 0);
            }
            return None;
        }
        let c = v[pos];
        proof {
            assert(s[0] == c);
        }
        if c == '"' {
            proof {
                assert(s.skip(1) =~= v@.skip(pos + 1 as int));
                assert(acc@ + Seq::<char>::empty() =~= acc@);
            }
            return Some((acc, pos + 1));
        } else if c == '\\' {
            if pos + 1 == v.len() {
                proof {
                    assert(s.len() < 2);
                }
                return None;
            }
            let c2 = v[pos + 1];
            proof {
                assert(s[1] == c2);
            }
            if c2 == '"' {
                push_char(&mut acc, '"');
                proof {
                    assert(s.skip(2) =~= v@.skip(pos + 2 as int));
                }
                pos = pos + 2;
            } else if c2 == '\\' {
                push_char(&mut acc, '\\');
                proof {
                    assert(s.skip(2) =~= v@.skip(pos + 2 as int));
                }
                pos = pos + 2;
            } else if c2 == 'u' {
                if v.len() - pos < 6 {
                    proof {
                        assert(s.len() < 6);
                    }
                    return None;
                }
                proof {
                    assert(s[2] == v@[pos + 2 as int] && s[3] == v@[pos + 3 as int] && s[4] == v@[
                        pos + 4 as int
                    ] && s[5] == v@[pos + 5 as int]);
                }
                if v[pos + 2] != '0' || v[pos + 3] != '0' {
                    return None;
                }
                let h1 = match hex_val_exec(v[pos + 4]) {
                    Some(d) => d,
                    None => {
                        return None;
                    }
                };
                let h2 = match hex_val_exec(v[pos + 5]) {
                    Some(d) => d,
                    None => {
                        return None;
                    }
                };
                let code = h1 * 16 + h2;
                if code >= 32 {
                    return None;
                }
                let decoded = (code as u8) as char;
                proof {
                    assert(decoded as u32 == code);
                    vstd::utf8::char_u32_cast(decoded, code);
                    assert(decoded == control_char(code as int));
                    assert(s.skip(6) =~= v@.skip(pos + 6 as int));
                }
                push_char(&mut acc, decoded);
                pos = pos + 6;
            } else {
                return None;
            }
        } else if (c as u32) < 32 {
            return None;
        } else {
            push_char(&mut acc, c);
            proof {
                assert(s.skip(1) =~= v@.skip(pos + 1 as int));
            }
            pos = pos + 1;
        }
    }
}

fn label_at(v: &Vec<char>, start: usize, user: bool) -> (r: bool)
    requires
        start <= v@.len(),
    ensures
        user ==> r == (v@.skip(start as int).len() >= 8 && v@.skip(start as int).take(8)
            == user_label()),
        !user ==> r == (v@.skip(start as int).len() >= 13 && v@.skip(start as int).take(13)
            == assistant_label()),
{
    let ghost s = v@.skip(start as int);
    if user {
        if v.len() - start < 8 {
            return false;
        }
        let r = v[start] == '{' && v[start + 1] == '"' && v[start + 2] == 'U' && v[start + 3]
            == 's' && v[start + 4] == 'e' && v[start + 5] == 'r' && v[start + 6] == '"' && v[start
            + 7] == ':';
        proof {
            assert(forall|j: int| 0 <= j < 8 ==> s.take(8)[j] == v@[start + j]);
            if r {
                assert(s.take(8) =~= user_label());
            } else {
                assert(s.take(8) != user_label());
            }
        }
        r
    } else {
        if v.len() - start < 13 {
            return false;
        }
        let r = v[start] == '{' && v[start + 1] == '"' && v[start + 2] == 'A' && v[start + 3]
            == 's' && v[start + 4] == 's' && v[start + 5] == 'i' && v[start + 6] == 's' && v[start
            + 7] == 't' && v[start + 8] == 'a' && v[start + 9] == 'n' && v[start + 10] == 't'
            && v[start + 11] == '"' && v[start + 12] == ':';
        proof {
            assert(forall|j: int| 0 <= j < 13 ==> s.take(13)[j] == v@[start + j]);
            if r {
                assert(s.take(13) =~= assistant_label());
            } else {
                assert(s.take(13) != assistant_label());
            }
        }
        r
    }
}

/// Reads one serialized turn starting at `start`, returning it and the
/// position after it.
fn parse_message_exec(v: &Vec<char>, start: usize) -> (r: Option<(MessageType, usize)>)
    requires
        start <= v@.len(),
    ensures
        match r {
            Some(p) => start <= p.1 <= v@.len() && parse_message(v@.skip(start as int)) == Some(
                (p.0@, v@.skip(p.1 as int)),
            ),
            None => parse_message(v@.skip(start as int)) is None,
        },
{
    let ghost s = v@.skip(start as int);
    let is_user = label_at(v, start, true);
    let skip_n: usize = if is_user {
        8
    } else {
        if !label_at(v, start, false) {
            return None;
        }
        13
    };
    let n = v.len();
    proof {
        if is_user {
            assert(s.len() >= 8);
        } else {
            assert(s.len() >= 13);
        }
        assert(start + skip_n <= n);
    }
    let body_start = start + skip_n;
    proof {
        assert(s.skip(skip_n as int) =~= v@.skip(body_start as int));
    }
    if body_start == v.len() || v[body_start] != '"' {
        proof {
            assert(parse_quoted(s.skip(skip_n as int)) is None);
        }
        return None;
    }
    proof {
        assert(s.skip(skip_n as int)[0] == '"');
        assert(s.skip(skip_n as int).skip(1) =~= v@.skip(body_start + 1 as int));
    }
    let parsed = parse_str_body_exec(v, body_start + 1);
    match parsed {
        Some((text, after)) => {
            if after == v.len() || v[after] != '}' {
                proof {
                    assert(v@.skip(after as int).len() >= 1 ==> v@.skip(after as int)[0] == v@[
                        after as int
                    ]);
                }
                return None;
            }
            proof {
                assert(v@.skip(after as int)[0] == '}');
                assert(v@.skip(after as int).skip(1) =~= v@.skip(after + 1 as int));
            }
            if is_user {
                Some((MessageType::User(text), after + 1))
            } else {
                Some((MessageType::Assistant(text), after + 1))
            }
        }
        None => None,
    }
}

/// Prepends already parsed turns to an item-list parse.
spec fn prepend_msgs(p: Seq<MsgView>, r: Option<Seq<MsgView>>) -> Option<Seq<MsgView>> {
    match r {
        Some(ms) => Some(p + ms),
        None => None,
    }
}

/// Reads back a history serialized by `serialize_history`: the turns in
/// order, or nothing if the text is not a canonical serialized history.
pub fn parse_history(text: &str) -> (r: Option<Vec<MessageType>>)
    ensures
        match r {
            Some(h) => parse_history_view(text@) == Some(h.deep_view()),
            None => parse_history_view(text@) is None,
        },
{
    let v = to_chars(text);
    if v.len() < 2 {
        return None;
    }
    if v[0] != '[' {
        return None;
    }
    if v.len() == 2 {
        if v[1] == ']' {
            let out: Vec<MessageType> = Vec::new();
            proof {
                assert(out.deep_view() =~= Seq::<MsgView>::empty());
            }
            return Some(out);
        } else {
            proof {
                assert(parse_message(v@.skip(1)) is None) by {
                    assert(v@.skip(1).len() == 1);
                }
            }
            return None;
        }
    }
    let mut out: Vec<MessageType> = Vec::new();
    let mut pos: usize = 1;
    proof {
        assert(out.deep_view() =~= Seq::<MsgView>::empty());
        assert(Seq::<MsgView>::empty() + Seq::<MsgView>::empty() =~= Seq::<MsgView>::empty());
    }
    loop
        invariant
            1 <= pos <= v@.len(),
            v@ == text@,
            v@.len() > 2,
            v@[0] == '[',
            parse_history_view(text@) == prepend_msgs(out.deep_view(), parse_items(v@.skip(pos as int))),
        decreases v@.len() - pos,
    {
        let ghost pre = out.deep_view();
        let parsed = parse_message_exec(&v, pos);
        match parsed {
            Some((m, after)) => {
                let ghost mv = m@;
                if after < v.len() && v[after] == ',' {
                    proof {
                        assert(v@.skip(after as int)[0] == ',');
                        assert(v@.skip(after as int).skip(1) =~= v@.skip(after + 1 as int));
                    }
                    out.push(m);
                    proof {
                        assert(out.deep_view() =~= pre.push(mv));
                        assert(forall|ms: Seq<MsgView>|
                            pre + (seq![mv] + ms) =~= (#[trigger] (pre.push(mv) + ms)));
                    }
                    pos = after + 1;
                } else if v.len() - after == 1 && v[after] == ']' {
                    proof {
                        assert(v@.skip(after as int).len() == 1);
                        assert(v@.skip(after as int)[0] == ']');
                        assert(parse_items(v@.skip(pos as int)) == Some(seq![mv]));
                    }
                    out.push(m);
                    proof {
                        assert(out.deep_view() =~= pre + seq![mv]);
                    }
                    return Some(out);
                } else {
                    proof {
                        if after < v.len() {
                            assert(v@.skip(after as int)[0] == v@[after as int]);
                        }
                    }
                    return None;
                }
            }
            None => {
                return None;
            }
        }
    }
}

/// Builds the prompt handed to the engine: the serialized history as a
/// fenced context block, then the raw user prompt.
pub fn augmented_prompt(history_text: &str, prompt: &str) -> (r: String)
    ensures
        r@ == augmented_prompt_view(history_text@, prompt@),
{
    let mut out = String::new();
    out.append("```CHAT_HISTORY\n");
    out.append(history_text);
    out.append("\n```\n\n\n");
    out.append(prompt);
    proof {
        assert(out@ =~= augmented_prompt_view(history_text@, prompt@));
    }
    out
}

} // verus!
