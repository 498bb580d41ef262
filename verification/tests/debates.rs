//! The rounds of a debate, and the award in a synthesis.

use consensus::api::ModelResponse;
use consensus::cli::DebateMode;
use consensus::config::{Config, ProviderConfig};
use consensus::debate::{
    mode_name, parse_best_from_synthesis, read_mark, system_prompt, AUDIT_SYSTEM, SYNTHESIS_SYSTEM,
};
use consensus::history::{get_best_provider, ProviderScore};
use consensus::number::Real;
use consensus::rounds::{accept_stream, plan_audits, Debate, Phase, Request, Temperature};
use consensus::stream::StreamResponse;

fn seconds(x: f64) -> Real {
    Real { bits: x.to_bits(), tenths: format!("{:.1}", x) }
}

fn provider(name: &str) -> ProviderConfig {
    ProviderConfig {
        name: name.to_string(),
        base_url: "https://api.example.com/v1".to_string(),
        api_key: "key".to_string(),
        model: format!("{}-model", name),
        label: Some(name.to_uppercase()),
        max_tokens: None,
        timeout_secs: None,
    }
}

fn config(names: &[&str]) -> Config {
    Config {
        providers: names.iter().map(|n| provider(n)).collect(),
        temperature_bits: 0.3f32.to_bits(),
        max_tokens: 4096,
        timeout_secs: 120,
        max_retries: 2,
        history_db_path: "h.db".to_string(),
    }
}

fn answer(name: &str, content: &str) -> ModelResponse {
    ModelResponse {
        provider: name.to_string(),
        label: name.to_uppercase(),
        model: format!("{}-model", name),
        content: content.to_string(),
        elapsed_secs: seconds(1.0),
        error: None,
        tokens_used: None,
    }
}

fn failure(name: &str, error: &str) -> ModelResponse {
    let mut r = answer(name, "");
    r.error = Some(error.to_string());
    r
}

fn asked(requests: &[Request]) -> Vec<usize> {
    requests.iter().map(|r| r.provider).collect()
}

fn user(request: &Request) -> &str {
    &request.messages[1].content
}

fn opened<'a>(c: &'a Config, mode: DebateMode) -> (Debate<'a>, Vec<Request>) {
    match Debate::start(c, mode, "Why?", None, 500, false) {
        Ok(pair) => pair,
        Err(e) => panic!("{}", e),
    }
}

#[test]
fn test_system_prompts_exist() {
    for mode in [
        DebateMode::Quick,
        DebateMode::General,
        DebateMode::Code,
        DebateMode::Debug,
        DebateMode::Adversarial,
    ] {
        let p = system_prompt(&mode);
        assert!(!p.is_empty());
    }
}

#[test]
fn test_audit_system_not_empty() {
    assert!(!AUDIT_SYSTEM.is_empty());
    assert!(!SYNTHESIS_SYSTEM.is_empty());
}

#[test]
fn test_synthesis_mentions_best() {
    assert!(SYNTHESIS_SYSTEM.contains("BEST:"));
}

#[test]
fn test_parse_best_from_synthesis_found() {
    let content = "Here is the synthesis answer.\n\nBEST: kiro";
    let (best, cleaned) = parse_best_from_synthesis(content);
    assert_eq!(best, Some("kiro".to_string()));
    assert!(!cleaned.contains("BEST:"));
    assert!(cleaned.contains("synthesis answer"));
}

#[test]
fn test_parse_best_from_synthesis_not_found() {
    let content = "Here is the synthesis answer without best marker.";
    let (best, cleaned) = parse_best_from_synthesis(content);
    assert_eq!(best, None);
    assert_eq!(cleaned, content);
}

#[test]
fn test_parse_best_from_synthesis_with_trailing_whitespace() {
    let content = "Answer here.\n\n\nBEST: codex\n";
    let (best, cleaned) = parse_best_from_synthesis(content);
    assert_eq!(best, Some("codex".to_string()));
    assert_eq!(cleaned, "Answer here.");
}

#[test]
fn a_mark_is_a_line_with_a_name() {
    assert_eq!(read_mark("BEST: a"), Some("a".to_string()));
    assert_eq!(read_mark("  BEST:a b\t"), Some("a b".to_string()));
    assert_eq!(read_mark("BEST:  "), None);
    assert_eq!(read_mark("The BEST: a"), None);
    assert_eq!(read_mark("best: a"), None);
}

#[test]
fn the_last_mark_counts() {
    let (best, kept) = parse_best_from_synthesis("x\nBEST: a\ny\nBEST: b\nz");
    assert_eq!(best, Some("b".to_string()));
    assert_eq!(kept, "x\nBEST: a\ny");
}

#[test]
fn a_mark_counts_within_the_last_five_lines() {
    let (fifth, kept) = parse_best_from_synthesis("x\nBEST: a\n1\n2\n3\n4");
    assert_eq!((fifth, kept.as_str()), (Some("a".to_string()), "x"));
    let far = "x\nBEST: a\n1\n2\n3\n4\n5";
    assert_eq!(parse_best_from_synthesis(far), (None, far.to_string()));
}

#[test]
fn taking_out_a_mark_gives_the_answer_back() {
    for text in ["", "one", "one\n\ntwo", "  indented"] {
        let (best, kept) = parse_best_from_synthesis(&format!("{}\nBEST: kiro", text));
        assert_eq!(best, Some("kiro".to_string()));
        assert_eq!(kept, text);
    }
    assert_eq!(parse_best_from_synthesis("a\r\nb\r\nBEST: k").1, "a\nb");
}

#[test]
fn modes_have_names() {
    assert_eq!(mode_name(&DebateMode::Quick), "QUICK");
    assert_eq!(mode_name(&DebateMode::General), "GENERAL");
    assert_eq!(mode_name(&DebateMode::Code), "CODE REVIEW");
    assert_eq!(mode_name(&DebateMode::Debug), "DEBUG");
    assert_eq!(mode_name(&DebateMode::Adversarial), "ADVERSARIAL");
}

#[test]
fn one_provider_is_no_debate() {
    let c = config(&["a"]);
    match Debate::start(&c, DebateMode::Code, "Why?", None, 500, false) {
        Ok(_) => panic!("a debate with oneself"),
        Err(e) => assert_eq!(e, "Need at least 2 providers for debate (found 1)"),
    }
    let c = config(&["a", "b", "c"]);
    match Debate::start(&c, DebateMode::Code, "Why?", Some(&[]), 500, false) {
        Ok(_) => panic!("a debate of nobody"),
        Err(e) => assert_eq!(e, "Need at least 2 providers for debate (found 0)"),
    }
}

#[test]
fn everyone_answers_first() {
    let mut c = config(&["a", "b", "c"]);
    c.providers[1].max_tokens = Some(10);
    c.providers[2].api_key = String::new();
    let (_, requests) = match Debate::start(&c, DebateMode::Debug, "Why?", None, 500, true) {
        Ok(pair) => pair,
        Err(e) => panic!("{}", e),
    };
    assert_eq!(asked(&requests), vec![0, 1, 2]);
    for r in &requests {
        assert_eq!(r.messages.len(), 2);
        assert_eq!(r.messages[0].role, "system");
        assert_eq!(r.messages[0].content, system_prompt(&DebateMode::Debug));
        assert_eq!(r.messages[1].role, "user");
        assert_eq!(user(r), "Why?");
        assert_eq!(r.temperature, Temperature::Requested);
    }
    let limits: Vec<u32> = requests.iter().map(|r| r.max_tokens).collect();
    assert_eq!(limits, vec![500, 10, 500]);
    let streams: Vec<bool> = requests.iter().map(|r| r.stream).collect();
    assert_eq!(streams, vec![true, true, false]);
}

#[test]
fn a_quick_debate_takes_one_round() {
    let c = config(&["a", "b", "c"]);
    let (mut debate, first) = opened(&c, DebateMode::Quick);
    let more = debate.take_responses(vec![answer("a", "1"), answer("b", "2"), answer("c", "3")]);
    assert_eq!(first.len() + more.len(), 3);
    assert_eq!(debate.phase, Phase::Finished);
    let result = debate.into_result(seconds(2.5));
    assert_eq!(result.mode, "QUICK");
    assert_eq!(result.responses.len(), 3);
    assert!(result.audits.is_empty());
    assert!(result.synthesis.is_none());
    assert_eq!(result.total_secs.tenths, "2.5");
}

#[test]
fn a_general_debate_takes_two_rounds() {
    let c = config(&["a", "b", "c"]);
    let (mut debate, first) = opened(&c, DebateMode::General);
    let second = debate.take_responses(vec![answer("a", "1"), answer("b", "2"), answer("c", "3")]);
    assert_eq!(first.len() + second.len(), 6);
    assert_eq!(asked(&second), vec![0, 1, 2]);
    debate.take_audits(vec![answer("a", "fine")]);
    assert_eq!(debate.phase, Phase::Finished);
    let result = debate.into_result(seconds(0.0));
    assert_eq!(result.audits.len(), 1);
    assert!(result.synthesis.is_none());
}

#[test]
fn other_debates_end_with_a_synthesis() {
    for mode in [DebateMode::Code, DebateMode::Debug, DebateMode::Adversarial] {
        let c = config(&["a", "b", "c"]);
        let (mut debate, first) = opened(&c, mode);
        let second =
            debate.take_responses(vec![answer("a", "1"), answer("b", "2"), answer("c", "3")]);
        debate.take_audits(vec![answer("a", "fine"), failure("b", "down")]);
        assert_eq!(debate.phase, Phase::Synthesising);
        let third = debate.synthesis_request(None);
        assert_eq!(first.len() + second.len() + 1, 7);
        assert_eq!(third.provider, 0);
        assert_eq!(third.messages[0].content, SYNTHESIS_SYSTEM);
        assert_eq!(
            user(&third),
            "ORIGINAL TASK:\nWhy?\n\n\n--- MODEL RESPONSES ---\n\nA:\n1\n\nB:\n2\n\nC:\n3\n\n\n--- CROSS-AUDIT FEEDBACK ---\n\nA reviewed others:\nfine"
        );
        assert_eq!(third.temperature, Temperature::Low);
        assert_eq!(third.max_tokens, 4096);
        assert!(!third.stream);
        let best = debate.take_synthesis(answer("a", "Merged.\n\nBEST: b"));
        assert_eq!(best, Some("b".to_string()));
        assert_eq!(debate.phase, Phase::Finished);
        let result = debate.into_result(seconds(0.0));
        assert_eq!(result.synthesis.unwrap().content, "Merged.");
    }
}

#[test]
fn a_failed_synthesis_awards_nobody() {
    let c = config(&["a", "b"]);
    let (mut debate, _) = opened(&c, DebateMode::Code);
    debate.take_responses(vec![answer("a", "1"), answer("b", "2")]);
    debate.take_audits(vec![]);
    let mut failed = failure("a", "down");
    failed.content = "BEST: b".to_string();
    assert_eq!(debate.take_synthesis(failed), None);
    let result = debate.into_result(seconds(0.0));
    assert_eq!(result.synthesis.unwrap().content, "BEST: b");
}

#[test]
fn auditors_read_the_others() {
    let c = config(&["a", "b", "c"]);
    let providers: Vec<&ProviderConfig> = c.providers.iter().collect();
    let responses = vec![answer("a", "one"), failure("b", "down"), answer("c", "three")];
    let requests = plan_audits(&providers, &responses, "Why?", 120);
    assert_eq!(asked(&requests), vec![0, 1, 2]);
    assert_eq!(
        user(&requests[0]),
        "ORIGINAL TASK:\nWhy?\n\nRESPONSES TO AUDIT:\n--- C RESPONSE ---\nthree\n\nReview each response. Find errors, gaps, and improvements."
    );
    assert_eq!(
        user(&requests[1]),
        "ORIGINAL TASK:\nWhy?\n\nRESPONSES TO AUDIT:\n--- A RESPONSE ---\none\n\n--- C RESPONSE ---\nthree\n\nReview each response. Find errors, gaps, and improvements."
    );
    assert_eq!(requests[0].messages[0].content, AUDIT_SYSTEM);
    assert_eq!(requests[0].max_tokens, 3000);
    assert_eq!(requests[0].temperature, Temperature::Low);
    assert!(!requests[0].stream);
}

#[test]
fn a_provider_sets_the_timeout_of_its_calls() {
    let mut c = config(&["a", "b", "c"]);
    c.providers[1].timeout_secs = Some(7);
    let (mut debate, first) = opened(&c, DebateMode::Code);
    let timeouts = |list: &[Request]| -> Vec<u64> { list.iter().map(|r| r.timeout_secs).collect() };
    assert_eq!(timeouts(&first), vec![120, 7, 120]);
    let second = debate.take_responses(vec![answer("a", "1"), answer("b", "2"), answer("c", "3")]);
    assert_eq!(timeouts(&second), vec![120, 7, 120]);
    debate.take_audits(vec![]);
    assert_eq!(debate.synthesis_request(Some("b")).timeout_secs, 7);
    assert_eq!(debate.synthesis_request(None).timeout_secs, 120);
}

#[test]
fn one_answer_is_not_audited() {
    let c = config(&["a", "b"]);
    let providers: Vec<&ProviderConfig> = c.providers.iter().collect();
    let responses = vec![answer("a", "one"), failure("b", "down")];
    assert!(plan_audits(&providers, &responses, "Why?", 120).is_empty());
}

#[test]
fn the_best_record_does_the_synthesis() {
    let c = config(&["a", "b", "c"]);
    let (mut debate, _) = opened(&c, DebateMode::Code);
    debate.take_responses(vec![answer("a", "1"), answer("b", "2"), answer("c", "3")]);
    debate.take_audits(vec![]);
    assert_eq!(debate.synthesis_request(Some("c")).provider, 2);
    assert_eq!(debate.synthesis_request(Some("elsewhere")).provider, 0);
    let score = |name: &str, x: f64| ProviderScore {
        provider: name.to_string(),
        total_debates: 1,
        times_best: 0,
        total_audit_issues_found: 0,
        total_audit_issues_received: 0,
        score: seconds(x),
    };
    let best = get_best_provider(&[score("a", 10.0), score("b", 60.0), score("c", 40.0)]);
    assert_eq!(debate.synthesis_request(best.as_deref()).provider, 1);
}

#[test]
fn a_failed_stream_is_not_accepted() {
    let p = provider("a");
    let good = StreamResponse {
        content: "text".to_string(),
        elapsed_secs: seconds(3.0),
        tokens_used: None,
        error: None,
    };
    let r = accept_stream(&p, Some(good)).unwrap();
    assert_eq!((r.provider.as_str(), r.label.as_str(), r.content.as_str()), ("a", "A", "text"));
    assert_eq!(r.elapsed_secs.tenths, "3.0");
    let bad = StreamResponse {
        content: String::new(),
        elapsed_secs: seconds(3.0),
        tokens_used: None,
        error: Some("Empty stream response".to_string()),
    };
    assert!(accept_stream(&p, Some(bad)).is_none());
    assert!(accept_stream(&p, None).is_none());
}
