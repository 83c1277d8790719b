use chat_relay::msg::Event;
use chat_relay::msg::MessageType;
use chat_relay::wire::augmented_prompt;
use chat_relay::wire::parse_history;
use chat_relay::wire::serialize_event;
use chat_relay::wire::serialize_history;

fn user(t: &str) -> MessageType {
    MessageType::User(t.to_string())
}

fn assistant(t: &str) -> MessageType {
    MessageType::Assistant(t.to_string())
}

#[test]
fn empty_history_serializes_to_empty_array() {
    assert_eq!(serialize_history(&vec![]), "[]");
}

#[test]
fn history_serializes_in_order_with_role_tags() {
    let h = vec![user("Hello"), assistant("Hi there")];
    assert_eq!(serialize_history(&h), "[{\"User\":\"Hello\"},{\"Assistant\":\"Hi there\"}]");
}

#[test]
fn quotes_backslashes_and_controls_are_escaped() {
    let h = vec![user("a\"b\\c\nd")];
    assert_eq!(serialize_history(&h), "[{\"User\":\"a\\\"b\\\\c\\u000ad\"}]");
}

#[test]
fn history_round_trips_through_the_wire_text() {
    let cases: Vec<Vec<MessageType>> = vec![
        vec![],
        vec![user("Hello")],
        vec![user("Hello"), assistant("Hi there")],
        vec![user(""), assistant(""), user("x")],
        vec![user("a\"b\\c\nd\u{1f}\u{0}"), assistant("caf\u{e9} \u{1f600} ]}{[,")],
        vec![assistant("<think>not a marker here</think>")],
    ];
    for h in cases {
        let text = serialize_history(&h);
        assert_eq!(parse_history(&text), Some(h));
    }
}

#[test]
fn parser_rejects_what_the_serializer_never_writes() {
    assert_eq!(parse_history(""), None);
    assert_eq!(parse_history("["), None);
    assert_eq!(parse_history("{}"), None);
    assert_eq!(parse_history("[ ]"), None);
    assert_eq!(parse_history("[{\"User\":\"a\"}"), None);
    assert_eq!(parse_history("[{\"User\":\"a\"}]z"), None);
    assert_eq!(parse_history("[{\"Narrator\":\"a\"}]"), None);
    assert_eq!(parse_history("[{\"User\":\"a\"},]"), None);
    assert_eq!(parse_history("[{\"User\":\"\u{1}\"}]"), None);
}

#[test]
fn events_serialize_exactly_as_specified() {
    let token = Event::Token { token: "Hi".to_string() };
    assert_eq!(serialize_event(&token), "{\"event\":\"Token\",\"token\":\"Hi\"}");
    assert_eq!(serialize_event(&Event::Thinking), "{\"event\":\"Thinking\"}");
    assert_eq!(serialize_event(&Event::DoneThinking), "{\"event\":\"DoneThinking\"}");
    assert_eq!(serialize_event(&Event::Done), "{\"event\":\"Done\"}");
}

#[test]
fn serialized_events_are_valid_json_for_a_standard_parser() {
    let fragment = "a\"b\\c\nd\u{1f} caf\u{e9} \u{1f600}";
    let text = serialize_event(&Event::Token { token: fragment.to_string() });
    let value: serde_json::Value = serde_json::from_str(&text).expect("event text must be JSON");
    assert_eq!(value["event"], serde_json::Value::String("Token".to_string()));
    assert_eq!(value["token"], serde_json::Value::String(fragment.to_string()));
}

#[test]
fn serialized_history_is_valid_json_for_a_standard_parser() {
    let h = vec![user("q\n\"x\""), assistant("r\\s")];
    let text = serialize_history(&h);
    let value: serde_json::Value = serde_json::from_str(&text).expect("history text must be JSON");
    let items = value.as_array().expect("history must be a JSON array");
    assert_eq!(items.len(), 2);
    assert_eq!(items[0]["User"], serde_json::Value::String("q\n\"x\"".to_string()));
    assert_eq!(items[1]["Assistant"], serde_json::Value::String("r\\s".to_string()));
}

#[test]
fn augmented_prompt_frames_history_then_prompt() {
    let p = augmented_prompt("[]", "Hello");
    assert_eq!(p, "```CHAT_HISTORY\n[]\n```\n\n\nHello");
    let framed = augmented_prompt("[{\"User\":\"a\"}]", "b");
    assert_eq!(framed, "```CHAT_HISTORY\n[{\"User\":\"a\"}]\n```\n\n\nb");
}
