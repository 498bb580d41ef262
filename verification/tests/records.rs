//! What the history keeps, and the dates in it.

use consensus::api::{ModelResponse, TokenUsage};
use consensus::calendar::{days_to_ymd, is_leap, utc_timestamp};
use consensus::debate::DebateResult;
use consensus::history::{
    count_issues, count_lowered, get_best_provider, history_query, log_debate, score_ratio, Change,
    Counts, HistoryQuery, ProviderScore,
};
use consensus::number::{is_less, is_not_a_number, Real};

fn number(x: f64) -> Real {
    Real { bits: x.to_bits(), tenths: format!("{:.1}", x) }
}

fn score(name: &str, x: f64) -> ProviderScore {
    ProviderScore {
        provider: name.to_string(),
        total_debates: 1,
        times_best: 0,
        total_audit_issues_found: 0,
        total_audit_issues_received: 0,
        score: number(x),
    }
}

fn answer(name: &str, content: &str) -> ModelResponse {
    ModelResponse {
        provider: name.to_string(),
        label: name.to_uppercase(),
        model: "m".to_string(),
        content: content.to_string(),
        elapsed_secs: number(1.5),
        error: None,
        tokens_used: None,
    }
}

fn failure(name: &str) -> ModelResponse {
    let mut r = answer(name, "");
    r.error = Some("down".to_string());
    r
}

fn totals(changes: &[Change], name: &str) -> Counts {
    let mut sum = Counts { debates: 0, best: 0, found: 0, received: 0 };
    for change in changes {
        if let Change::Credit { provider, counts, .. } = change {
            if provider == name {
                sum.debates += counts.debates;
                sum.best += counts.best;
                sum.found += counts.found;
                sum.received += counts.received;
            }
        }
    }
    sum
}

#[test]
fn test_count_issues_with_patterns() {
    let text = "## Issue 1: Bug\nThere is a critical error in the code.\n## Issue 2: Missing validation\nThe input is not validated.";
    let patterns = ["issue", "error", "bug", "missing", "critical"];
    assert_eq!(count_issues(text, &patterns), 2);
}

#[test]
fn test_count_issues_minimal() {
    let text = "The response looks correct overall with minor concerns.";
    let patterns = ["issue", "error", "bug", "concern"];
    assert_eq!(count_issues(text, &patterns), 1);
}

#[test]
fn test_count_issues_empty() {
    let text = "Everything looks perfect and accurate.";
    let patterns = ["issue", "error", "bug"];
    assert_eq!(count_issues(text, &patterns), 0);
}

#[test]
fn test_days_to_ymd() {
    // Jan 1, 1970 = day 0
    assert_eq!(days_to_ymd(0), (1970, 1, 1));
    // Jan 2, 1970 = day 1
    assert_eq!(days_to_ymd(1), (1970, 1, 2));
}

#[test]
fn test_score_formula() {
    // 10 debates, 5 times best, 10 issues received
    let total_debates = 10i64;
    let times_best = 5i64;
    let received = 10i64;
    let (numerator, denominator) = score_ratio(total_debates, times_best, received);
    let score = (numerator as f64 / denominator as f64) * 100.0;
    // (15 + 0) / 50 * 100 = 30.0
    assert!((score - 30.0).abs() < 0.01);
}

#[test]
fn items_of_all_kinds_count() {
    let text = "# a bug\n## a bug\n### A BUG\n- bug\n* Bug\n1. bug\n2) bug\n3 the bug.\nbug\n  - bug\n## fine";
    assert_eq!(count_issues(text, &["bug"]), 7);
    assert_eq!(count_issues("", &["bug", ""]), 0);
    assert_eq!(count_issues("BUG", &["bug"]), 1);
    assert_eq!(count_issues("- nothing\nÄRGER", &["ärger"]), 1);
    assert_eq!(count_issues("anything", &[]), 0);
}

#[test]
fn each_item_counts_once() {
    assert_eq!(count_lowered("- BUG ERROR", "- bug error", &["bug", "error"]), 1);
    assert_eq!(count_lowered(" ", "- bug", &["bug"]), 1);
    assert_eq!(count_lowered(" ", "bug", &["bug"]), 0);
}

#[test]
fn scores_are_fractions() {
    assert_eq!(score_ratio(0, 0, 0), (0, 1));
    assert_eq!(score_ratio(15, 8, 12), (30, 75));
    assert_eq!(score_ratio(15, 2, 30), (-24, 75));
    assert_eq!(score_ratio(1, 0, 3), (-4, 5));
    assert_eq!(score_ratio(1, 1, 0), (5, 5));
    assert_eq!(score_ratio(i64::MAX, i64::MAX, i64::MIN).1, 46_116_860_184_273_879_035);
}

#[test]
fn awards_raise_a_score_and_issues_lower_it() {
    assert!(score_ratio(10, 3, 4).0 < score_ratio(10, 4, 4).0);
    assert!(score_ratio(10, 3, 5).0 < score_ratio(10, 3, 4).0);
    assert!(score_ratio(10, 3, 11).0 < score_ratio(10, 3, 10).0);
    assert_eq!(score_ratio(10, 10, 0), (50, 50));
}

#[test]
fn the_best_provider_has_the_highest_score() {
    assert_eq!(get_best_provider(&[]), None);
    assert_eq!(get_best_provider(&[score("a", 1.0), score("b", 3.0), score("c", 2.0)]), Some("b".to_string()));
    assert_eq!(get_best_provider(&[score("a", 3.0), score("b", 3.0)]), Some("b".to_string()));
    assert_eq!(get_best_provider(&[score("a", -1.0), score("b", -2.0)]), Some("a".to_string()));
}

#[test]
fn numbers_are_compared_by_their_bits() {
    let values = [f64::NEG_INFINITY, -2.5, -0.1, 0.0, 1e-300, 0.1, 80.0, 1e300, f64::INFINITY];
    for a in values {
        for b in values {
            assert_eq!(is_less(a.to_bits(), b.to_bits()), a < b);
        }
        assert!(!is_less(a.to_bits(), f64::NAN.to_bits()));
        assert!(!is_less(f64::NAN.to_bits(), a.to_bits()));
        assert!(!is_not_a_number(a.to_bits()));
    }
    assert!(!is_less((-0.0f64).to_bits(), 0.0f64.to_bits()));
    assert!(is_not_a_number(f64::NAN.to_bits()));
    assert!(is_not_a_number((-f64::NAN).to_bits()));
    let same = number(2.5).copy();
    assert_eq!((same.bits, same.tenths.as_str()), (2.5f64.to_bits(), "2.5"));
}

#[test]
fn a_debate_is_logged_in_order() {
    let mut first = answer("a", "é");
    first.tokens_used =
        Some(TokenUsage { prompt_tokens: 1, completion_tokens: 2, total_tokens: 3 });
    let result = DebateResult {
        mode: "CODE REVIEW".to_string(),
        responses: vec![first, answer("b", "two"), failure("c")],
        audits: vec![answer("a", "- bug\n- error"), failure("b"), answer("c", "fine")],
        synthesis: Some(answer("b", "merged")),
        total_secs: number(12.5),
    };
    let prompt = "p".repeat(300);
    let changes = log_debate(&result, &prompt, Some("a"), "now");
    match &changes[0] {
        Change::Debate {
            timestamp,
            mode,
            prompt_preview,
            total_secs,
            num_providers,
            synthesis_provider,
        } => {
            assert_eq!(timestamp, "now");
            assert_eq!(mode, "CODE REVIEW");
            assert_eq!(prompt_preview, &"p".repeat(200));
            assert_eq!(total_secs.tenths, "12.5");
            assert_eq!(*num_providers, 3);
            assert_eq!(synthesis_provider, &Some("b".to_string()));
        }
        _ => panic!("the debate itself comes first"),
    }
    match &changes[1] {
        Change::Response { provider, content_chars, tokens_prompt, tokens_completion, tokens_total, error, .. } => {
            assert_eq!(provider, "a");
            assert_eq!(*content_chars, 2);
            assert_eq!((*tokens_prompt, *tokens_completion, *tokens_total), (Some(1), Some(2), Some(3)));
            assert_eq!(*error, None);
        }
        _ => panic!("the responses follow"),
    }
    match &changes[3] {
        Change::Response { provider, error, tokens_total, .. } => {
            assert_eq!(provider, "c");
            assert_eq!(*error, Some("down".to_string()));
            assert_eq!(*tokens_total, None);
        }
        _ => panic!("the responses follow"),
    }
    match &changes[4] {
        Change::Finding { auditor, target, issues_found } => {
            assert_eq!((auditor.as_str(), target.as_str(), *issues_found), ("a", "b", 2));
        }
        _ => panic!("the findings follow"),
    }
    // One finding of `a`, two of `c`, each with two credits; then three parts and an award.
    assert_eq!(changes.len(), 1 + 3 + 3 * 3 + 3 + 1);
    match &changes[changes.len() - 1] {
        Change::Credit { provider, counts, last_updated } => {
            assert_eq!(provider, "a");
            assert_eq!(*counts, Counts { debates: 0, best: 1, found: 0, received: 0 });
            assert_eq!(last_updated, "now");
        }
        _ => panic!("the award comes last"),
    }
    assert_eq!(totals(&changes, "a"), Counts { debates: 1, best: 1, found: 2, received: 0 });
    assert_eq!(totals(&changes, "b"), Counts { debates: 1, best: 0, found: 0, received: 2 });
    assert_eq!(totals(&changes, "c"), Counts { debates: 1, best: 0, found: 0, received: 0 });
}

#[test]
fn issues_found_and_received_balance() {
    let result = DebateResult {
        mode: "GENERAL".to_string(),
        responses: vec![answer("a", "1"), answer("b", "2"), answer("c", "3")],
        audits: vec![
            answer("a", "- bug"),
            answer("b", "1. wrong\n2. missing\n3. fine"),
            answer("c", "a problem"),
        ],
        synthesis: None,
        total_secs: number(1.0),
    };
    let changes = log_debate(&result, "p", None, "now");
    let all: Vec<Counts> = ["a", "b", "c"].iter().map(|n| totals(&changes, n)).collect();
    assert_eq!(all[0], Counts { debates: 1, best: 0, found: 2, received: 3 });
    assert_eq!(all[1], Counts { debates: 1, best: 0, found: 4, received: 2 });
    assert_eq!(all[2], Counts { debates: 1, best: 0, found: 2, received: 3 });
}

#[test]
fn queries_carry_the_limit() {
    assert!(matches!(history_query(10, None), HistoryQuery::Latest { limit: 10 }));
    match history_query(3, Some("a")) {
        HistoryQuery::OfProvider { provider, limit } => {
            assert_eq!((provider.as_str(), limit), ("a", 3));
        }
        _ => panic!("the provider got lost"),
    }
    assert!(matches!(history_query(usize::MAX, None), HistoryQuery::Latest { limit: -1 }));
}

#[test]
fn leap_years_are_known() {
    assert!(is_leap(2000));
    assert!(is_leap(2024));
    assert!(!is_leap(1900));
    assert!(!is_leap(2023));
}

#[test]
fn days_are_counted_from_1970() {
    assert_eq!(days_to_ymd(30), (1970, 1, 31));
    assert_eq!(days_to_ymd(31), (1970, 2, 1));
    assert_eq!(days_to_ymd(364), (1970, 12, 31));
    assert_eq!(days_to_ymd(365), (1971, 1, 1));
    assert_eq!(days_to_ymd(11_016), (2000, 2, 29));
    assert_eq!(days_to_ymd(19_782), (2024, 2, 29));
    assert_eq!(days_to_ymd(20_000), (2024, 10, 4));
}

#[test]
fn every_day_has_its_own_date() {
    let mut before = days_to_ymd(0);
    for day in 1..40_000u64 {
        let date = days_to_ymd(day);
        assert!(before < date);
        before = date;
    }
}

#[test]
fn timestamps_are_in_universal_time() {
    assert_eq!(utc_timestamp(0), "1970-01-01T00:00:00Z");
    assert_eq!(utc_timestamp(86_399), "1970-01-01T23:59:59Z");
    assert_eq!(utc_timestamp(1_700_000_000), "2023-11-14T22:13:20Z");
}
