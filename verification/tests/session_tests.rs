use chat_relay::msg::Event;
use chat_relay::msg::MessageType;
use chat_relay::session::default_model;
use chat_relay::session::is_exit_frame;
use chat_relay::session::InboundFrame;
use chat_relay::session::RelayError;
use chat_relay::session::Session;
use chat_relay::session::SessionState;
use chat_relay::session::TurnAction;

fn frags(texts: &[&str]) -> Vec<String> {
    texts.iter().map(|t| t.to_string()).collect()
}

#[test]
fn hello_turn_streams_tokens_then_done() {
    let mut s = Session::new(default_model());
    let action = s.begin_turn(InboundFrame::Text("Hello".to_string()));
    let prompt = match action {
        TurnAction::Generate(p) => p,
        TurnAction::End => panic!("a plain prompt must start a generation"),
    };
    assert_eq!(prompt, "```CHAT_HISTORY\n[]\n```\n\n\nHello");
    let evs = s.run_turn(&frags(&["Hi", " there"]));
    assert_eq!(
        evs,
        vec![
            Event::Token { token: "Hi".to_string() },
            Event::Token { token: " there".to_string() },
            Event::Done,
        ]
    );
    assert_eq!(
        s.history,
        vec![
            MessageType::User("Hello".to_string()),
            MessageType::Assistant("Hi there".to_string()),
        ]
    );
    assert!(matches!(s.state, SessionState::AwaitingInput));
}

#[test]
fn thinking_span_is_announced_and_suppressed() {
    let mut s = Session::new(default_model());
    let action = s.begin_turn(InboundFrame::Text("Why?".to_string()));
    assert!(matches!(action, TurnAction::Generate(_)));
    let evs = s.run_turn(&frags(&["<think>", "reasoning", "</think>", "Answer"]));
    assert_eq!(
        evs,
        vec![
            Event::Thinking,
            Event::DoneThinking,
            Event::Token { token: "Answer".to_string() },
            Event::Done,
        ]
    );
    assert_eq!(s.history[1], MessageType::Assistant("Answer".to_string()));
}

#[test]
fn text_before_thinking_span_is_reset_by_closing_marker() {
    let mut s = Session::new(default_model());
    s.begin_turn(InboundFrame::Text("q".to_string()));
    let evs = s.run_turn(&frags(&["early", "<think>", "hidden", "</think>", "kept"]));
    assert_eq!(
        evs,
        vec![
            Event::Token { token: "early".to_string() },
            Event::Thinking,
            Event::DoneThinking,
            Event::Token { token: "kept".to_string() },
            Event::Done,
        ]
    );
    assert_eq!(s.history[1], MessageType::Assistant("kept".to_string()));
}

#[test]
fn one_done_per_completed_prompt() {
    let mut s = Session::new(default_model());
    let mut done_count = 0;
    for (prompt, stream) in [("a", vec!["1"]), ("b", vec!["<think>", "x", "</think>", "2"])] {
        let action = s.begin_turn(InboundFrame::Text(prompt.to_string()));
        assert!(matches!(action, TurnAction::Generate(_)));
        let evs = s.run_turn(&frags(&stream));
        done_count += evs.iter().filter(|e| matches!(e, Event::Done)).count();
    }
    assert_eq!(done_count, 2);
    assert_eq!(s.history.len(), 4);
}

#[test]
fn markers_never_appear_as_token_payloads() {
    let mut s = Session::new(default_model());
    s.begin_turn(InboundFrame::Text("q".to_string()));
    let evs = s.run_turn(&frags(&["<think>", "<think>", "</think>", "ok", "</think>", "end"]));
    for e in &evs {
        if let Event::Token { token } = e {
            assert_ne!(token, "<think>");
            assert_ne!(token, "</think>");
        }
    }
    let thinking = evs.iter().filter(|e| matches!(e, Event::Thinking)).count();
    let done_thinking = evs.iter().filter(|e| matches!(e, Event::DoneThinking)).count();
    assert_eq!(thinking, 2);
    assert_eq!(done_thinking, 2);
}

#[test]
fn exit_frame_closes_with_no_events_and_history_untouched() {
    let mut s = Session::new(default_model());
    s.begin_turn(InboundFrame::Text("Hello".to_string()));
    s.run_turn(&frags(&["Hi"]));
    let history_before = s.history.clone();
    let action = s.begin_turn(InboundFrame::Text("  exit\n".to_string()));
    assert!(matches!(action, TurnAction::End));
    assert!(matches!(s.state, SessionState::Closed));
    assert_eq!(s.history, history_before);
}

#[test]
fn exit_must_be_exact_after_trimming() {
    assert!(is_exit_frame("exit"));
    assert!(is_exit_frame(" exit "));
    assert!(is_exit_frame("\texit\r\n"));
    assert!(is_exit_frame("\u{3000}exit\u{a0}"));
    assert!(!is_exit_frame("Exit"));
    assert!(!is_exit_frame("exit now"));
    assert!(!is_exit_frame("exi"));
    assert!(!is_exit_frame(""));
    assert!(!is_exit_frame("   "));
}

#[test]
fn non_text_frame_closes_silently() {
    let mut s = Session::new(default_model());
    let action = s.begin_turn(InboundFrame::NonText);
    assert!(matches!(action, TurnAction::End));
    assert!(matches!(s.state, SessionState::Closed));
    assert!(s.history.is_empty());
}

#[test]
fn send_failure_mid_turn_closes_only_that_session() {
    let mut failing = Session::new(default_model());
    let mut healthy = Session::new(default_model());

    failing.begin_turn(InboundFrame::Text("q".to_string()));
    let first = failing.on_fragment(&"partial".to_string());
    assert!(first.is_some());
    // The relay could not deliver the event: the session closes at once.
    failing.close();
    assert!(matches!(failing.state, SessionState::Closed));

    // An unrelated session is unaffected and still completes its turn.
    let action = healthy.begin_turn(InboundFrame::Text("Hello".to_string()));
    assert!(matches!(action, TurnAction::Generate(_)));
    let evs = healthy.run_turn(&frags(&["fine"]));
    assert_eq!(evs.last(), Some(&Event::Done));
    assert!(matches!(healthy.state, SessionState::AwaitingInput));
}

#[test]
fn second_turn_carries_first_turn_as_context() {
    let mut s = Session::new(default_model());
    s.begin_turn(InboundFrame::Text("Hello".to_string()));
    s.run_turn(&frags(&["Hi"]));
    let action = s.begin_turn(InboundFrame::Text("Again".to_string()));
    let prompt = match action {
        TurnAction::Generate(p) => p,
        TurnAction::End => panic!("a plain prompt must start a generation"),
    };
    assert_eq!(
        prompt,
        "```CHAT_HISTORY\n[{\"User\":\"Hello\"},{\"Assistant\":\"Hi\"}]\n```\n\n\nAgain"
    );
}

#[test]
fn default_model_is_fixed() {
    assert_eq!(default_model(), "deepseek-r1:8b");
}

#[test]
fn relay_errors_describe_themselves() {
    assert_eq!(RelayError::ModelUnavailable.describe(), "model could not be provisioned");
    assert_eq!(RelayError::EngineUnreachable.describe(), "engine could not be contacted");
    assert_eq!(RelayError::EngineError.describe(), "engine returned a mid-stream error");
    assert_eq!(RelayError::SerializationFailure.describe(), "event could not be serialized");
    assert_eq!(RelayError::ClientGone.describe(), "client stopped accepting events");
    assert_eq!(RelayError::MalformedInbound.describe(), "inbound frame was not text");
}
