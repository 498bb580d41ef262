//! Calls to a model: what is sent, what comes back, and when a call is tried again.

use consensus::api::{
    authorization, backoff_millis, chat_url, client_timeout, describe_rejection, is_success, judge,
    judge_text, model_response, read_reply, read_usage, truncate_str, CallEvent, CallOutcome,
    CallState, CallStep, ChatReply, Clock, Judgement, ReplyMessage, TokenUsage, UsageReport,
    LAST_PAUSE,
};
use consensus::config::ProviderConfig;
use consensus::number::Real;

fn provider() -> ProviderConfig {
    ProviderConfig {
        name: "kiro".to_string(),
        base_url: "https://api.example.com/v1".to_string(),
        api_key: "key".to_string(),
        model: "model-1".to_string(),
        label: None,
        max_tokens: None,
        timeout_secs: None,
    }
}

fn message(content: Option<&str>, reasoning: Option<&str>) -> ReplyMessage {
    ReplyMessage {
        content: content.map(|s| s.to_string()),
        reasoning_content: reasoning.map(|s| s.to_string()),
    }
}

fn reply(choices: Vec<ReplyMessage>) -> ChatReply {
    ChatReply { choices, usage: None }
}

fn rejected(code: u16) -> Judgement {
    judge(CallEvent::Rejected { code, body: "no".to_string() })
}

#[test]
fn test_truncate() {
    assert_eq!(truncate_str("hello", 3), "hel");
    assert_eq!(truncate_str("hi", 5), "hi");
}

#[test]
fn truncation_cuts_between_characters() {
    assert_eq!(truncate_str("aé", 2), "a");
    assert_eq!(truncate_str("aé", 3), "aé");
    assert_eq!(truncate_str("日本語", 7), "日本");
    assert_eq!(truncate_str("😀", 3), "");
    assert_eq!(truncate_str("x", 0), "");
    assert_eq!(truncate_str("", 0), "");
}

#[test]
fn the_url_does_not_depend_on_trailing_slashes() {
    assert_eq!(chat_url("https://a/v1"), "https://a/v1/chat/completions");
    assert_eq!(chat_url("https://a/v1///"), "https://a/v1/chat/completions");
    assert_eq!(chat_url(""), "/chat/completions");
}

#[test]
fn the_key_is_a_bearer_token() {
    assert_eq!(authorization("k1"), "Bearer k1");
}

#[test]
fn the_connection_outlives_the_call() {
    assert_eq!(client_timeout(120), 150);
}

#[test]
fn success_is_two_hundred_and_something() {
    assert!(!is_success(199));
    assert!(is_success(200));
    assert!(is_success(299));
    assert!(!is_success(300));
}

#[test]
fn a_rejection_names_the_status() {
    assert_eq!(describe_rejection(404, "gone"), "HTTP 404 Not Found: gone");
    assert_eq!(describe_rejection(503, ""), "HTTP 503 Service Unavailable: ");
    assert_eq!(describe_rejection(299, "x"), "HTTP 299 <unknown status code>: x");
    let long = "y".repeat(300);
    assert_eq!(describe_rejection(500, &long).len(), "HTTP 500 Internal Server Error: ".len() + 200);
}

#[test]
fn content_comes_before_reasoning() {
    assert_eq!(read_reply(&reply(vec![message(Some("a"), Some("b"))])), "a");
    assert_eq!(read_reply(&reply(vec![message(Some(""), Some("b"))])), "b");
    assert_eq!(read_reply(&reply(vec![message(None, Some("b"))])), "b");
    assert_eq!(read_reply(&reply(vec![message(Some(""), None)])), "");
    assert_eq!(read_reply(&reply(vec![])), "");
    assert_eq!(read_reply(&reply(vec![message(Some("a"), None), message(Some("z"), None)])), "a");
}

#[test]
fn missing_counts_are_zero() {
    let mut r = reply(vec![]);
    assert_eq!(read_usage(&r), None);
    r.usage = Some(UsageReport {
        prompt_tokens: Some(3),
        completion_tokens: None,
        total_tokens: Some(9),
    });
    assert_eq!(
        read_usage(&r),
        Some(TokenUsage { prompt_tokens: 3, completion_tokens: 0, total_tokens: 9 })
    );
}

#[test]
fn a_reply_is_a_success() {
    match judge(CallEvent::Replied(reply(vec![message(Some("yes"), None)]))) {
        Judgement::Success { content, tokens_used, clock } => {
            assert_eq!(content, "yes");
            assert_eq!(tokens_used, None);
            assert_eq!(clock, Clock::AtAnswer);
        }
        _ => panic!("a reply was not accepted"),
    }
}

#[test]
fn events_in_place_of_a_document_are_read() {
    let text = "data: {\"choices\":[{\"delta\":{\"content\":\"Hi\"}}]}\n";
    match judge(CallEvent::NoReply { error: "bad".to_string(), text: text.to_string() }) {
        Judgement::Success { content, clock, .. } => {
            assert_eq!(content, "Hi");
            assert_eq!(clock, Clock::AtEnd);
        }
        _ => panic!("events were not read"),
    }
}

#[test]
fn a_body_that_is_neither_is_a_complaint() {
    match judge(CallEvent::NoReply { error: "bad".to_string(), text: "<html>".to_string() }) {
        Judgement::Transient(e) => assert_eq!(e, "JSON parse error: bad — raw: <html>"),
        _ => panic!("a page was accepted"),
    }
    let blank = " data: {\"choices\":[{\"delta\":{\"content\":\"Hi\"}}]}\n";
    match judge(CallEvent::NoReply { error: "bad".to_string(), text: blank.to_string() }) {
        Judgement::Transient(_) => {}
        _ => panic!("events have to start the body"),
    }
    match judge_text("bad", "data: x", None) {
        Judgement::Transient(e) => assert_eq!(e, "JSON parse error: bad — raw: data: x"),
        _ => panic!("no events were accepted"),
    }
}

#[test]
fn failures_of_the_connection_are_transient() {
    match judge(CallEvent::RequestFailed("refused".to_string())) {
        Judgement::Transient(e) => assert_eq!(e, "Request error: refused"),
        _ => panic!("a failed request was final"),
    }
    match judge(CallEvent::BodyFailed("cut".to_string())) {
        Judgement::Transient(e) => assert_eq!(e, "Body read error: cut"),
        _ => panic!("a cut body was final"),
    }
}

#[test]
fn client_errors_are_final_except_too_many_requests() {
    assert!(matches!(rejected(400), Judgement::Fatal(_)));
    assert!(matches!(rejected(404), Judgement::Fatal(_)));
    assert!(matches!(rejected(499), Judgement::Fatal(_)));
    assert!(matches!(rejected(429), Judgement::Transient(_)));
    assert!(matches!(rejected(500), Judgement::Transient(_)));
    assert!(matches!(rejected(301), Judgement::Transient(_)));
    match rejected(401) {
        Judgement::Fatal(e) => assert_eq!(e, "HTTP 401 Unauthorized: no"),
        _ => panic!("a refusal was not final"),
    }
}

#[test]
fn pauses_double() {
    assert_eq!(backoff_millis(1), 500);
    assert_eq!(backoff_millis(2), 1000);
    assert_eq!(backoff_millis(3), 2000);
    assert_eq!(backoff_millis(LAST_PAUSE), 18_014_398_509_481_984_000);
}

#[test]
fn a_call_ends_when_its_retries_are_used_up() {
    let mut state = CallState::new(2);
    match state.decide(rejected(500)) {
        CallStep::Retry { pause_millis } => assert_eq!(pause_millis, 500),
        _ => panic!("no retry"),
    }
    match state.decide(rejected(429)) {
        CallStep::Retry { pause_millis } => assert_eq!(pause_millis, 1000),
        _ => panic!("no retry"),
    }
    assert_eq!(state, CallState { attempt: 2, max_retries: 2 });
    match state.decide(rejected(502)) {
        CallStep::Done(outcome) => {
            assert_eq!(outcome.error, Some("HTTP 502 Bad Gateway: no".to_string()));
            assert_eq!(outcome.content, "");
            assert_eq!(outcome.clock, Clock::AtEnd);
        }
        _ => panic!("one retry too many"),
    }
}

#[test]
fn a_final_failure_is_not_tried_again() {
    let mut state = CallState::new(5);
    match state.decide(rejected(403)) {
        CallStep::Done(outcome) => {
            assert_eq!(outcome.error, Some("HTTP 403 Forbidden: no".to_string()));
            assert_eq!(outcome.clock, Clock::AtAnswer);
        }
        _ => panic!("a refusal was tried again"),
    }
}

#[test]
fn a_success_after_a_retry_ends_the_call() {
    let mut state = CallState::new(1);
    assert!(matches!(state.decide(rejected(500)), CallStep::Retry { pause_millis: 500 }));
    let good = judge(CallEvent::Replied(reply(vec![message(Some("done"), None)])));
    match state.decide(good) {
        CallStep::Done(outcome) => {
            assert_eq!(outcome.content, "done");
            assert_eq!(outcome.error, None);
        }
        _ => panic!("a success was tried again"),
    }
}

#[test]
fn a_response_carries_the_names_of_its_provider() {
    let mut p = provider();
    let outcome = CallOutcome {
        content: "c".to_string(),
        error: None,
        tokens_used: None,
        clock: Clock::AtEnd,
    };
    let r = model_response(&p, outcome, Real { bits: 1, tenths: "0.0".to_string() });
    assert_eq!((r.provider.as_str(), r.label.as_str(), r.model.as_str()), ("kiro", "kiro", "model-1"));
    assert_eq!(r.content, "c");
    assert_eq!(r.elapsed_secs.bits, 1);
    p.label = Some("Kiro!".to_string());
    let outcome = CallOutcome {
        content: String::new(),
        error: Some("e".to_string()),
        tokens_used: None,
        clock: Clock::AtEnd,
    };
    let r = model_response(&p, outcome, Real { bits: 0, tenths: "0.0".to_string() });
    assert_eq!(r.label, "Kiro!");
    assert_eq!(r.error, Some("e".to_string()));
}
