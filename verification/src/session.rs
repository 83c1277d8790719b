//! The per-connection session state machine: it consumes inbound user
//! frames and streamed engine fragments, maintains the conversation
//! history and the thinking flag, and produces the outbound events.
use vstd::prelude::*;
use vstd::string::StrSliceExecFns;
use vstd::string::StringExecFns;
use crate::msg::Event;
use crate::msg::EventView;
use crate::msg::MessageType;
use crate::msg::MsgView;
use crate::wire;

verus! {

// ---------------------------------------------------------------------------
// Inbound frame text: whitespace trimming and the exit word
// ---------------------------------------------------------------------------

/// Whitespace as `exit` detection understands it: the Unicode
/// white-space characters.
pub open spec fn is_space(c: char) -> bool {
    ||| c == ' '
    ||| c == '\t'
    ||| c == '\n'
    ||| c == '\r'
    ||| c == '\u{b}'
    ||| c == '\u{c}'
    ||| c == '\u{85}'
    ||| c == '\u{a0}'
    ||| c == '\u{1680}'
    ||| (0x2000 <= (c as u32) && (c as u32) <= 0x200a)
    ||| c == '\u{2028}'
    ||| c == '\u{2029}'
    ||| c == '\u{202f}'
    ||| c == '\u{205f}'
    ||| c == '\u{3000}'
}

/// The text with its leading whitespace removed.
pub open spec fn trim_start_view(s: Seq<char>) -> Seq<char>
    decreases s.len(),
{
    if s.len() > 0 && is_space(s[0]) {
        trim_start_view(s.skip(1))
    } else {
        s
    }
}

/// The text with its trailing whitespace removed.
pub open spec fn trim_end_view(s: Seq<char>) -> Seq<char>
    decreases s.len(),
{
    if s.len() > 0 && is_space(s[s.len() - 1]) {
        trim_end_view(s.take(s.len() - 1))
    } else {
        s
    }
}

/// The text with whitespace removed from both ends.
pub open spec fn trim_view(s: Seq<char>) -> Seq<char> {
    trim_end_view(trim_start_view(s))
}

/// The control word that ends a session.
pub open spec fn exit_word() -> Seq<char> {
    seq!['e', 'x', 'i', 't']
}

/// The in-band marker that opens a thinking span.
pub open spec fn think_open() -> Seq<char> {
    seq!['<', 't', 'h', 'i', 'n', 'k', '>']
}

/// The in-band marker that closes a thinking span.
pub open spec fn think_close() -> Seq<char> {
    seq!['<', '/', 't', 'h', 'i', 'n', 'k', '>']
}

fn is_space_exec(c: char) -> (r: bool)
    ensures
        r == is_space(c),
{
    c == ' ' || c == '\t' || c == '\n' || c == '\r' || c == '\u{b}' || c == '\u{c}'
        || c == '\u{85}' || c == '\u{a0}' || c == '\u{1680}'
        || (0x2000 <= (c as u32) && (c as u32) <= 0x200a)
        || c == '\u{2028}' || c == '\u{2029}' || c == '\u{202f}' || c == '\u{205f}'
        || c == '\u{3000}'
}

/// Whether the frame text, with surrounding whitespace removed, is the
/// exact (case-sensitive) exit word.
pub fn is_exit_frame(s: &str) -> (r: bool)
    ensures
        r == (trim_view(s@) == exit_word()),
{
    let n = s.unicode_len();
    let mut lo: usize = 0;
    proof {
        assert(s@.skip(0) =~= s@);
    }
    while lo < n && is_space_exec(s.get_char(lo))
        invariant
            lo <= n,
            n == s@.len(),
            trim_start_view(s@) == trim_start_view(s@.skip(lo as int)),
        decreases n - lo,
    {
        proof {
            assert(s@.skip(lo as int)[0] == s@[lo as int]);
            assert(s@.skip(lo as int).skip(1) =~= s@.skip(lo + 1 as int));
        }
        lo += 1;
    }
    proof {
        assert(trim_start_view(s@.skip(lo as int)) == s@.skip(lo as int));
        assert(s@.skip(lo as int) =~= s@.subrange(lo as int, n as int));
    }
    let mut hi: usize = n;
    while hi > lo && is_space_exec(s.get_char(hi - 1))
        invariant
            lo <= hi <= n,
            n == s@.len(),
            trim_view(s@) == trim_end_view(s@.subrange(lo as int, hi as int)),
        decreases hi,
    {
        proof {
            let sub = s@.subrange(lo as int, hi as int);
            assert(sub[sub.len() - 1] == s@[hi - 1 as int]);
            assert(sub.take(sub.len() - 1) =~= s@.subrange(lo as int, hi - 1 as int));
        }
        hi -= 1;
    }
    proof {
        let sub = s@.subrange(lo as int, hi as int);
        assert(trim_end_view(sub) == sub);
    }
    if hi - lo != 4 {
        return false;
    }
    let r = s.get_char(lo) == 'e' && s.get_char(lo + 1) == 'x' && s.get_char(lo + 2) == 'i'
        && s.get_char(lo + 3) == 't';
    proof {
        let sub = s@.subrange(lo as int, hi as int);
        if r {
            assert(sub =~= exit_word());
        } else {
            assert(sub != exit_word());
        }
    }
    r
}

proof fn lemma_marker_literals()
    ensures
        "<think>"@ == think_open(),
        "</think>"@ == think_close(),
{
    reveal_strlit("<think>");
    reveal_strlit("</think>");
    assert("<think>"@ =~= think_open());
    assert("</think>"@ =~= think_close());
}

/// Whether the fragment is the literal marker opening a thinking span.
pub fn is_think_open(token: &String) -> (r: bool)
    ensures
        r == (token@ == think_open()),
{
    proof {
        lemma_marker_literals();
    }
    let m: String = "<think>".to_owned();
    *token == m
}

/// Whether the fragment is the literal marker closing a thinking span.
pub fn is_think_close(token: &String) -> (r: bool)
    ensures
        r == (token@ == think_close()),
{
    proof {
        lemma_marker_literals();
    }
    let m: String = "</think>".to_owned();
    *token == m
}

// ---------------------------------------------------------------------------
// One generation step, spec side
// ---------------------------------------------------------------------------

/// The event emitted for one streamed fragment: the markers announce the
/// thinking span, fragments inside the span are suppressed, every other
/// fragment is forwarded as a token.
pub open spec fn fragment_event(thinking: bool, tok: Seq<char>) -> Option<EventView> {
    if tok == think_open() {
        Some(EventView::Thinking)
    } else if tok == think_close() {
        Some(EventView::DoneThinking)
    } else if thinking {
        None
    } else {
        Some(EventView::Token(tok))
    }
}

/// The thinking flag after one streamed fragment.
pub open spec fn fragment_thinking(thinking: bool, tok: Seq<char>) -> bool {
    if tok == think_open() {
        true
    } else if tok == think_close() {
        false
    } else {
        thinking
    }
}

/// The visible-text buffer after one streamed fragment: the closing
/// marker deliberately resets it, so only text produced after the last
/// closing marker is kept for history.
pub open spec fn fragment_buffer(thinking: bool, buffer: Seq<char>, tok: Seq<char>) -> Seq<char> {
    if tok == think_open() {
        buffer
    } else if tok == think_close() {
        Seq::empty()
    } else if thinking {
        buffer
    } else {
        buffer + tok
    }
}

/// The events a whole turn emits for a finite fragment stream, ending in
/// the single `Done`.
pub open spec fn turn_events(thinking: bool, frags: Seq<Seq<char>>) -> Seq<EventView>
    decreases frags.len(),
{
    if frags.len() == 0 {
        seq![EventView::Done]
    } else {
        opt_event_seq(fragment_event(thinking, frags[0])) + turn_events(
            fragment_thinking(thinking, frags[0]),
            frags.skip(1),
        )
    }
}

/// Zero or one events, as a sequence.
pub open spec fn opt_event_seq(e: Option<EventView>) -> Seq<EventView> {
    match e {
        Some(ev) => seq![ev],
        None => Seq::empty(),
    }
}

/// The thinking flag after a whole fragment stream.
pub open spec fn turn_thinking(thinking: bool, frags: Seq<Seq<char>>) -> bool
    decreases frags.len(),
{
    if frags.len() == 0 {
        thinking
    } else {
        turn_thinking(fragment_thinking(thinking, frags[0]), frags.skip(1))
    }
}

/// The visible-text buffer after a whole fragment stream: the text the
/// turn stores as the assistant's reply.
pub open spec fn turn_buffer(thinking: bool, buffer: Seq<char>, frags: Seq<Seq<char>>) -> Seq<char>
    decreases frags.len(),
{
    if frags.len() == 0 {
        buffer
    } else {
        turn_buffer(
            fragment_thinking(thinking, frags[0]),
            fragment_buffer(thinking, buffer, frags[0]),
            frags.skip(1),
        )
    }
}

// ---------------------------------------------------------------------------
// The session
// ---------------------------------------------------------------------------

/// Where the session stands: waiting for the next user frame, draining a
/// generation stream, or finished.
#[derive(Debug, Clone, Copy, PartialEq, Eq, Structural)]
pub enum SessionState {
    AwaitingInput,
    Generating,
    Closed,
}

/// One inbound wire frame, as the relay loop sees it: UTF-8 text, or
/// anything else (a binary frame; a failed read and a close frame end
/// the loop before a frame is built).
pub enum InboundFrame {
    Text(String),
    NonText,
}

/// What the relay loop must do after handing a frame to the session:
/// drive a generation with the given engine prompt, or stop.
pub enum TurnAction {
    Generate(String),
    End,
}

/// Why a session ends ahead of a clean exit. Every failure is fatal to
/// the owning session only.
#[derive(Debug, Clone, Copy, PartialEq, Eq, Structural)]
pub enum RelayError {
    ModelUnavailable,
    EngineUnreachable,
    EngineError,
    SerializationFailure,
    ClientGone,
    MalformedInbound,
}

impl RelayError {
    /// The text of this error, for the surrounding process to log.
    pub open spec fn describe_view(&self) -> Seq<char> {
        match self {
            RelayError::ModelUnavailable => "model could not be provisioned"@,
            RelayError::EngineUnreachable => "engine could not be contacted"@,
            RelayError::EngineError => "engine returned a mid-stream error"@,
            RelayError::SerializationFailure => "event could not be serialized"@,
            RelayError::ClientGone => "client stopped accepting events"@,
            RelayError::MalformedInbound => "inbound frame was not text"@,
        }
    }

    /// The text of this error, for the surrounding process to log.
    pub fn describe(&self) -> (r: String)
        ensures
            r@ == self.describe_view(),
    {
        match self {
            RelayError::ModelUnavailable => "model could not be provisioned".to_owned(),
            RelayError::EngineUnreachable => "engine could not be contacted".to_owned(),
            RelayError::EngineError => "engine returned a mid-stream error".to_owned(),
            RelayError::SerializationFailure => "event could not be serialized".to_owned(),
            RelayError::ClientGone => "client stopped accepting events".to_owned(),
            RelayError::MalformedInbound => "inbound frame was not text".to_owned(),
        }
    }
}

/// The model the relay selects when its configuration names none.
pub fn default_model() -> (r: String)
    ensures
        r@ == "deepseek-r1:8b"@,
{
    "deepseek-r1:8b".to_owned()
}

/// One session: the state of one socket connection. It owns the
/// conversation history, the selected model name, the thinking flag and
/// the in-progress visible-text buffer of the current turn.
pub struct Session {
    pub model: String,
    pub history: Vec<MessageType>,
    pub thinking: bool,
    pub buffer: String,
    pub state: SessionState,
}

impl Session {
    /// Between turns the thinking flag is down and the turn buffer is
    /// empty: both live only while a generation stream is drained.
    pub open spec fn wf(&self) -> bool {
        self.state is AwaitingInput ==> (!self.thinking && self.buffer@.len() == 0)
    }

    /// A fresh session for one connection, with an empty history.
    pub fn new(model: String) -> (s: Session)
        ensures
            s.state is AwaitingInput,
            s.wf(),
            s.model == model,
            s.history.deep_view() == Seq::<MsgView>::empty(),
            !s.thinking,
            s.buffer@.len() == 0,
    {
        let s = Session {
            model,
            history: Vec::new(),
            thinking: false,
            buffer: String::new(),
            state: SessionState::AwaitingInput,
        };
        proof {
            assert(s.history.deep_view() =~= Seq::<MsgView>::empty());
        }
        s
    }

    /// Takes one inbound frame while the session awaits input. A
    /// non-text frame or the exit word closes the session with the
    /// history untouched and nothing emitted; any other text is recorded
    /// as a user turn, and the returned action carries the engine
    /// prompt: the history as serialized before this turn was appended,
    /// then the raw prompt.
    pub fn begin_turn(&mut self, frame: InboundFrame) -> (a: TurnAction)
        requires
            old(self).state is AwaitingInput,
            old(self).wf(),
        ensures
            final(self).wf(),
            final(self).model == old(self).model,
            final(self).thinking == old(self).thinking,
            final(self).buffer == old(self).buffer,
            match frame {
                InboundFrame::NonText => {
                    &&& final(self).state is Closed
                    &&& final(self).history == old(self).history
                    &&& a is End
                },
                InboundFrame::Text(t) => {
                    if trim_view(t@) == exit_word() {
                        &&& final(self).state is Closed
                        &&& final(self).history == old(self).history
                        &&& a is End
                    } else {
                        &&& final(self).state is Generating
                        &&& final(self).history.deep_view() == old(self).history.deep_view().push(
                            MsgView::User(t@),
                        )
                        &&& (a matches TurnAction::Generate(p) && p@ == wire::augmented_prompt_view(
                            wire::history_json(old(self).history.deep_view()),
                            t@,
                        ))
                    }
                },
            },
    {
        match frame {
            InboundFrame::NonText => {
                self.state = SessionState::Closed;
                TurnAction::End
            }
            InboundFrame::Text(t) => {
                if is_exit_frame(t.as_str()) {
                    self.state = SessionState::Closed;
                    TurnAction::End
                } else {
                    let history_text = wire::serialize_history(&self.history);
                    let prompt = wire::augmented_prompt(history_text.as_str(), t.as_str());
                    let ghost old_dv = self.history.deep_view();
                    let ghost tv = t@;
                    self.history.push(MessageType::User(t));
                    self.state = SessionState::Generating;
                    proof {
                        assert(self.history.deep_view() =~= old_dv.push(MsgView::User(tv)));
                    }
                    TurnAction::Generate(prompt)
                }
            }
        }
    }

    /// Takes one streamed fragment while a generation is drained. The
    /// markers raise and lower the thinking flag and are themselves
    /// discarded; the closing marker also resets the visible-text
    /// buffer; fragments inside a thinking span are suppressed; every
    /// other fragment is buffered and forwarded as a token event.
    pub fn on_fragment(&mut self, token: &String) -> (e: Option<Event>)
        requires
            old(self).state is Generating,
        ensures
            final(self).state is Generating,
            final(self).model == old(self).model,
            final(self).history == old(self).history,
            final(self).thinking == fragment_thinking(old(self).thinking, token@),
            final(self).buffer@ == fragment_buffer(old(self).thinking, old(self).buffer@, token@),
            e.deep_view() == fragment_event(old(self).thinking, token@),
    {
        if is_think_open(token) {
            self.thinking = true;
            Some(Event::Thinking)
        } else if is_think_close(token) {
            self.thinking = false;
            self.buffer = String::new();
            Some(Event::DoneThinking)
        } else if self.thinking {
            None
        } else {
            self.buffer.append(token.as_str());
            Some(Event::Token { token: token.clone() })
        }
    }

    /// Ends the current turn once the fragment stream is exhausted: the
    /// accumulated visible text becomes an assistant turn in the
    /// history, the buffer and flag reset, and the single `Done` event
    /// of the turn is returned.
    pub fn end_turn(&mut self) -> (e: Event)
        requires
            old(self).state is Generating,
        ensures
            final(self).state is AwaitingInput,
            final(self).wf(),
            final(self).model == old(self).model,
            final(self).history.deep_view() == old(self).history.deep_view().push(
                MsgView::Assistant(old(self).buffer@),
            ),
            e@ == EventView::Done,
    {
        let text = self.buffer.clone();
        self.buffer = String::new();
        self.thinking = false;
        let ghost old_dv = self.history.deep_view();
        self.history.push(MessageType::Assistant(text));
        self.state = SessionState::AwaitingInput;
        proof {
            assert(self.history.deep_view() =~= old_dv.push(MsgView::Assistant(old(self).buffer@)));
        }
        Event::Done
    }

    /// Closes the session: on disconnect, on a failed outbound send, or
    /// on an engine failure. Nothing else changes and nothing further is
    /// emitted.
    pub fn close(&mut self)
        ensures
            final(self).state is Closed,
            final(self).wf(),
            final(self).model == old(self).model,
            final(self).history == old(self).history,
            final(self).thinking == old(self).thinking,
            final(self).buffer == old(self).buffer,
    {
        self.state = SessionState::Closed;
    }

    /// Drains one whole turn from an already collected fragment stream:
    /// each fragment is handled in order and the turn is ended, so the
    /// returned events are the turn's full outbound sequence.
    pub fn run_turn(&mut self, frags: &Vec<String>) -> (evs: Vec<Event>)
        requires
            old(self).state is Generating,
        ensures
            evs.deep_view() == turn_events(old(self).thinking, frags.deep_view()),
            final(self).state is AwaitingInput,
            final(self).wf(),
            final(self).model == old(self).model,
            final(self).history.deep_view() == old(self).history.deep_view().push(
                MsgView::Assistant(
                    turn_buffer(old(self).thinking, old(self).buffer@, frags.deep_view()),
                ),
            ),
    {
        let ghost fv = frags.deep_view();
        let ghost th0 = old(self).thinking;
        let ghost buf0 = old(self).buffer@;
        let mut evs: Vec<Event> = Vec::new();
        let mut i: usize = 0;
        proof {
            assert(fv.skip(0) =~= fv);
        }
        while i < frags.len()
            invariant
                i <= frags.len(),
                fv == frags.deep_view(),
                fv.len() == frags.len(),
                self.state is Generating,
                self.model == old(self).model,
                self.history == old(self).history,
                turn_events(th0, fv) == evs.deep_view() + turn_events(
                    self.thinking,
                    fv.skip(i as int),
                ),
                turn_buffer(th0, buf0, fv) == turn_buffer(
                    self.thinking,
                    self.buffer@,
                    fv.skip(i as int),
                ),
            decreases frags.len() - i,
        {
            let ghost pre_evs = evs.deep_view();
            let ghost pre_th = self.thinking;
            proof {
                assert(fv.skip(i as int)[0] == fv[i as int]);
                assert(fv[i as int] == frags@[i as int]@);
                assert(fv.skip(i as int).skip(1) =~= fv.skip(i + 1 as int));
            }
            let e = self.on_fragment(&frags[i]);
            match e {
                Some(ev) => {
                    evs.push(ev);
                    proof {
                        assert(evs.deep_view() =~= pre_evs + opt_event_seq(
                            fragment_event(pre_th, fv[i as int]),
                        ));
                    }
                }
                None => {
                    proof {
                        assert(evs.deep_view() =~= pre_evs + opt_event_seq(
                            fragment_event(pre_th, fv[i as int]),
                        ));
                    }
                }
            }
            i += 1;
        }
        proof {
            assert(fv.skip(frags.len() as int) =~= Seq::<Seq<char>>::empty());
            assert(turn_events(self.thinking, Seq::<Seq<char>>::empty()) == seq![EventView::Done]);
        }
        let ghost pre_evs = evs.deep_view();
        let e = self.end_turn();
        evs.push(e);
        proof {
            assert(evs.deep_view() =~= pre_evs + seq![EventView::Done]);
            assert(evs.deep_view() =~= turn_events(th0, fv));
        }
        evs
    }
}

} // verus!
