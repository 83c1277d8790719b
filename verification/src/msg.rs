use vstd::prelude::*;

verus! {

/// One turn of the conversation history: who spoke and what they said.
/// Insertion order is significant; the history is replayed to the engine
/// as context on every later turn.
#[derive(Debug, Clone, PartialEq, Eq)]
pub enum MessageType {
    User(String),
    Assistant(String),
}

/// Mathematical model of a turn: the role tag and the text as a
/// sequence of characters.
pub enum MsgView {
    User(Seq<char>),
    Assistant(Seq<char>),
}

impl View for MessageType {
    type V = MsgView;

    open spec fn view(&self) -> MsgView {
        match self {
            MessageType::User(t) => MsgView::User(t@),
            MessageType::Assistant(t) => MsgView::Assistant(t@),
        }
    }
}

impl DeepView for MessageType {
    type V = MsgView;

    open spec fn deep_view(&self) -> MsgView {
        self.view()
    }
}

impl MessageType {
    /// The text carried by this turn, whoever spoke it.
    pub fn text(&self) -> (r: &String)
        ensures
            match self@ {
                MsgView::User(t) => r@ == t,
                MsgView::Assistant(t) => r@ == t,
            },
    {
        match self {
            MessageType::User(t) => t,
            MessageType::Assistant(t) => t,
        }
    }

    /// Whether this turn was spoken by the user.
    pub fn is_user(&self) -> (r: bool)
        ensures
            r == (self@ is User),
    {
        match self {
            MessageType::User(_) => true,
            MessageType::Assistant(_) => false,
        }
    }
}

/// A structured event sent to the client over the wire. For one turn,
/// zero or more `Token` / `Thinking` / `DoneThinking` events are emitted
/// in generation order, followed by exactly one `Done`.
#[derive(Debug, Clone, PartialEq, Eq)]
pub enum Event {
    Token { token: String },
    Thinking,
    DoneThinking,
    Done,
}

/// Mathematical model of an outbound event.
pub enum EventView {
    Token(Seq<char>),
    Thinking,
    DoneThinking,
    Done,
}

impl View for Event {
    type V = EventView;

    open spec fn view(&self) -> EventView {
        match self {
            Event::Token { token } => EventView::Token(token@),
            Event::Thinking => EventView::Thinking,
            Event::DoneThinking => EventView::DoneThinking,
            Event::Done => EventView::Done,
        }
    }
}

impl DeepView for Event {
    type V = EventView;

    open spec fn deep_view(&self) -> EventView {
        self.view()
    }
}

} // verus!
