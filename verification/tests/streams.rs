//! Server-sent events, read as a whole and while they arrive.

use consensus::number::Real;
use consensus::sse::{
    assemble_response, event_payload, parse_sse_response, read_choice, read_line, stream_token,
    Carrier, EventChoice,
};
use consensus::stream::{rejected_stream, split_complete, StreamState};

fn zero() -> Real {
    Real { bits: 0, tenths: "0.0".to_string() }
}

fn carrier(text: &str) -> Option<Carrier> {
    Some(Carrier { content: Some(text.to_string()) })
}

#[test]
fn test_parse_sse() {
    let input = "data: {\"choices\":[{\"delta\":{\"content\":\"Hello\"}}]}\n\ndata: {\"choices\":[{\"delta\":{\"content\":\" world\"}}]}\n\ndata: [DONE]\n";
    assert_eq!(parse_sse_response(input), Some("Hello world".into()));
}

#[test]
fn test_parse_sse_empty() {
    assert_eq!(parse_sse_response("data: [DONE]"), None);
}

#[test]
fn test_stream_module_exists() {
    assert!(true);
}

#[test]
fn payloads_follow_the_word_data() {
    assert_eq!(event_payload("data: x"), Some("x".to_string()));
    assert_eq!(event_payload("  data: x \r"), Some("x".to_string()));
    assert_eq!(event_payload("data: [DONE]"), None);
    assert_eq!(event_payload("data: [DONE]]"), Some("[DONE]]".to_string()));
    assert_eq!(event_payload("data:x"), None);
    assert_eq!(event_payload("event: x"), None);
    assert_eq!(event_payload(""), None);
}

#[test]
fn a_message_stands_in_for_a_missing_delta() {
    let message = "data: {\"choices\":[{\"message\":{\"content\":\"m\"}}]}";
    assert_eq!(parse_sse_response(message), Some("m".to_string()));
    let both = "data: {\"choices\":[{\"delta\":{\"role\":\"x\"},\"message\":{\"content\":\"m\"}}]}";
    assert_eq!(parse_sse_response(both), None);
}

#[test]
fn what_is_no_event_is_passed_over() {
    let input = "data: nonsense\ndata: {\"choices\":[]}\ndata: {\"choices\":3}\ndata: {}\ndata: {\"choices\":[{\"delta\":{\"content\":7}}]}\ndata: {\"choices\":[{\"delta\":{\"content\":\"ok\"}}]}";
    assert_eq!(parse_sse_response(input), Some("ok".to_string()));
}

#[test]
fn json_values_are_taken_apart() {
    let value: serde_json::Value =
        serde_json::from_str("{\"choices\":[{\"delta\":{\"content\":\"a\"}},{\"delta\":{\"content\":\"b\"}}]}")
            .unwrap();
    let choice = read_choice(&value).unwrap();
    assert!(choice.message.is_none());
    assert_eq!(stream_token(choice), Some("a".to_string()));
    assert!(read_choice(&serde_json::Value::Null).is_none());
    assert!(read_line("data: [1, 2]").is_none());
}

#[test]
fn pieces_are_put_together_in_order() {
    let choices = vec![
        Some(EventChoice { delta: carrier("a"), message: carrier("x") }),
        None,
        Some(EventChoice { delta: None, message: carrier("b") }),
        Some(EventChoice { delta: Some(Carrier { content: None }), message: carrier("y") }),
    ];
    assert_eq!(assemble_response(&choices), Some("ab".to_string()));
    assert_eq!(assemble_response(&vec![]), None);
}

#[test]
fn only_complete_lines_are_split_off() {
    let (lines, rest) = split_complete("a\nb\r\n\nc");
    assert_eq!(lines, vec!["a".to_string(), "b\r".to_string(), String::new()]);
    assert_eq!(rest, "c");
    let (none, all) = split_complete("abc");
    assert!(none.is_empty());
    assert_eq!(all, "abc");
}

#[test]
fn tokens_come_as_their_lines_are_completed() {
    let mut state = StreamState::new();
    assert!(state.feed_text("data: {\"choices\":[{\"delta\":{\"cont").is_empty());
    assert_eq!(state.content, "");
    let new = state.feed_text("ent\":\"Hel\"}}]}\ndata: {\"choices\":[{\"delta\":{\"content\":\"lo\"}}]}\ndata: [DO");
    assert_eq!(new, vec!["Hel".to_string(), "lo".to_string()]);
    assert_eq!(state.buf, "data: [DO");
    let response = state.finish(zero());
    assert_eq!(response.content, "Hello");
    assert_eq!(response.error, None);
    assert_eq!(response.tokens_used, None);
}

#[test]
fn how_a_stream_is_cut_does_not_matter() {
    let text = "data: {\"choices\":[{\"delta\":{\"content\":\"a\"}}]}\r\n: note\ndata: {\"choices\":[{\"delta\":{\"content\":\"b\"}}]}\n";
    let mut at_once = StreamState::new();
    let all = at_once.feed_text(text);
    for cut in 0..text.len() {
        let mut state = StreamState::new();
        let mut tokens = state.feed_text(&text[..cut]);
        tokens.extend(state.feed_text(&text[cut..]));
        assert_eq!(tokens, all);
        assert_eq!(state.buf, at_once.buf);
        assert_eq!(state.content, at_once.content);
        assert!(!state.buf.contains('\n'));
    }
    assert_eq!(parse_sse_response(text), Some(at_once.content));
}

#[test]
fn a_stream_does_not_read_messages() {
    let mut state = StreamState::new();
    let text = "data: {\"choices\":[{\"message\":{\"content\":\"m\"}}]}\n";
    assert!(state.feed_text(text).is_empty());
    assert_eq!(parse_sse_response(text), Some("m".to_string()));
}

#[test]
fn a_stream_without_tokens_is_an_error() {
    let mut state = StreamState::new();
    state.feed_text("data: [DONE]\n");
    let response = state.finish(zero());
    assert_eq!(response.error, Some("Empty stream response".to_string()));
    assert_eq!(response.content, "");
}

#[test]
fn a_refused_stream_is_an_error() {
    let response = rejected_stream(401, "no", zero());
    assert_eq!(response.error, Some("HTTP 401 Unauthorized: no".to_string()));
    assert_eq!(response.content, "");
    assert_eq!(response.tokens_used, None);
    assert_eq!(response.elapsed_secs.tenths, "0.0");
}

#[test]
fn bytes_are_decoded() {
    let mut state = StreamState::new();
    let mut bytes = "data: {\"choices\":[{\"delta\":{\"content\":\"é".as_bytes().to_vec();
    bytes.push(0xff);
    bytes.extend("\"}}]}\n".as_bytes());
    assert_eq!(state.feed(&bytes), vec!["é\u{fffd}".to_string()]);
    assert_eq!(state.content, "é\u{fffd}");
}
