//! What is shown: results, the scoreboard, the history and progress.

use consensus::api::ModelResponse;
use consensus::cli::DebateMode;
use consensus::debate::DebateResult;
use consensus::history::{DebateSummary, ProviderScore};
use consensus::number::Real;
use consensus::report::{
    all_failed, auditing_line, award_line, closing_banner, format_history, format_scoreboard,
    format_text, layout_history, layout_scoreboard, opening_banner, progress_line, rank, record_line,
    responding_line, synthesising_line, tell_response, HistoryPaint, ScoreboardPaint,
};

fn number(x: f64) -> Real {
    Real { bits: x.to_bits(), tenths: format!("{:.1}", x) }
}

fn answer(name: &str, content: &str) -> ModelResponse {
    ModelResponse {
        provider: name.to_string(),
        label: name.to_uppercase(),
        model: "m".to_string(),
        content: content.to_string(),
        elapsed_secs: number(1.25),
        error: None,
        tokens_used: None,
    }
}

fn failure(name: &str) -> ModelResponse {
    let mut r = answer(name, "");
    r.error = Some("down".to_string());
    r
}

fn score(name: &str, x: f64) -> ProviderScore {
    ProviderScore {
        provider: name.to_string(),
        total_debates: 15,
        times_best: 8,
        total_audit_issues_found: 42,
        total_audit_issues_received: -2,
        score: number(x),
    }
}

fn summary() -> DebateSummary {
    DebateSummary {
        id: 7,
        timestamp: "T".to_string(),
        mode: "DEBUG".to_string(),
        prompt_preview: "q".repeat(60),
        total_secs: number(9.0),
        num_providers: 3,
        synthesis_provider: None,
    }
}

#[test]
fn test_format_empty_result() {
    let result = DebateResult {
        mode: "QUICK".into(),
        responses: vec![],
        audits: vec![],
        synthesis: None,
        total_secs: number(0.0),
    };
    let text = format_text(&result);
    assert!(text.contains("Models consulted"));
    assert_eq!(text, "**Models consulted:** 0/0\n\n");
}

#[test]
fn test_format_scoreboard_empty() {
    let scores: Vec<ProviderScore> = vec![];
    let text = format_scoreboard(&scores);
    assert!(text.contains("No scores yet"));
}

#[test]
fn test_format_history_empty() {
    let summaries: Vec<DebateSummary> = vec![];
    let text = format_history(&summaries);
    assert!(text.contains("No debates"));
}

#[test]
fn responses_are_shown_where_there_is_no_synthesis() {
    let result = DebateResult {
        mode: "GENERAL".into(),
        responses: vec![answer("a", "one"), failure("b")],
        audits: vec![answer("a", "fine"), failure("b")],
        synthesis: None,
        total_secs: number(0.0),
    };
    assert_eq!(
        format_text(&result),
        "**Models consulted:** 1/2\n\n## A\n*(1.2s)*\n\none\n\n## B\n*(1.2s)*\n\n❌ Error: down\n\n\n<details><summary>🔍 Cross-Audit Feedback (click to expand)</summary>\n\n### A → reviewed others\nfine\n\n### B → reviewed others\n❌ down\n\n</details>\n"
    );
}

#[test]
fn a_synthesis_comes_first() {
    let result = DebateResult {
        mode: "CODE REVIEW".into(),
        responses: vec![answer("a", "one"), failure("b")],
        audits: vec![],
        synthesis: Some(answer("s", "merged")),
        total_secs: number(0.0),
    };
    assert_eq!(
        format_text(&result),
        "**Models consulted:** 1/2\n**Synthesized by:** S\n\n## ✅ Consensus Answer\n\nmerged\n\n<details><summary>📋 Individual Responses (click to expand)</summary>\n\n### A *(1.2s)*\none\n\n### B *(1.2s)*\n❌ down\n\n</details>\n"
    );
}

#[test]
fn a_debate_fails_when_everyone_does() {
    let mut result = DebateResult {
        mode: "QUICK".into(),
        responses: vec![failure("a"), failure("b")],
        audits: vec![],
        synthesis: None,
        total_secs: number(0.0),
    };
    assert!(all_failed(&result));
    result.responses.push(answer("c", ""));
    assert!(!all_failed(&result));
    result.responses.clear();
    assert!(all_failed(&result));
}

#[test]
fn scores_are_ranked_from_high_to_low() {
    let scores = [score("a", 10.0), score("b", 90.0), score("c", 10.0), score("d", -1.0), score("e", 50.0)];
    assert_eq!(rank(&scores), vec![1, 4, 0, 2, 3]);
    assert!(rank(&[]).is_empty());
}

#[test]
fn a_scoreboard_is_laid_out_in_columns() {
    let scores = [score("low", 45.0), score("high", 72.3)];
    let paint = ScoreboardPaint {
        bar: "=".to_string(),
        title: "T".to_string(),
        headings: ["1", "2", "3", "4", "5", "6"].iter().map(|s| s.to_string()).collect(),
        scores: vec!["<45>".to_string(), "<72.3 and more>".to_string()],
    };
    assert_eq!(
        layout_scoreboard(&scores, &paint),
        format!(
            "\n=\n  📊 T\n=\n\n  1 2 3 4 5 6\n  {}\n  high                 <72.3 and more>     15      8     42       -2\n  low                      <45>     15      8     42       -2\n\n  Score formula: (best×3 + (debates-received)×2) / max(debates×5, 1) × 100\n=\n",
            "─".repeat(62)
        )
    );
}

#[test]
fn a_scoreboard_has_colours() {
    colored::control::set_override(true);
    let text = format_scoreboard(&[score("a", 80.0), score("b", 79.9), score("c", 50.0), score("d", 49.9)]);
    let bar = format!("\u{1b}[94m{}\u{1b}[0m", "═".repeat(70));
    assert!(text.starts_with(&format!("\n{}\n  📊 \u{1b}[1;97mMODEL SCOREBOARD\u{1b}[0m\n{}\n\n", bar, bar)));
    assert!(text.contains("  \u{1b}[1;97mProvider            \u{1b}[0m \u{1b}[1;97m   Score\u{1b}[0m \u{1b}[1;97mDebates\u{1b}[0m \u{1b}[1;97m  Best\u{1b}[0m \u{1b}[1;97m Found\u{1b}[0m \u{1b}[1;97m  Recv'd\u{1b}[0m\n"));
    assert!(text.contains(" \u{1b}[92m80.0\u{1b}[0m     15 "));
    assert!(text.contains(" \u{1b}[93m79.9\u{1b}[0m     15 "));
    assert!(text.contains(" \u{1b}[93m50.0\u{1b}[0m     15 "));
    assert!(text.contains(" \u{1b}[31m49.9\u{1b}[0m     15 "));
    assert!(text.ends_with(&format!("{}\n", bar)));
}

#[test]
fn a_history_is_laid_out_in_rows() {
    let mut second = summary();
    second.id = 12_345;
    second.synthesis_provider = Some("kiro".to_string());
    second.prompt_preview = "short".to_string();
    let paint = HistoryPaint {
        bar: "=".to_string(),
        title: "T".to_string(),
        timestamps: vec!["t1".to_string(), "t2".to_string()],
        modes: vec!["m1".to_string(), "m2".to_string()],
    };
    assert_eq!(
        layout_history(&[summary(), second], &paint),
        format!(
            "\n=\n  📜 T\n=\n\n  t1 #7    m1 | {} | 3 providers | synth: — | 9.0s\n  t2 #12345 m2 | short | 3 providers | synth: kiro | 9.0s\n\n=\n",
            "q".repeat(50)
        )
    );
}

#[test]
fn a_history_has_colours() {
    colored::control::set_override(true);
    let text = format_history(&[summary()]);
    let bar = format!("\u{1b}[94m{}\u{1b}[0m", "═".repeat(70));
    assert_eq!(
        text,
        format!(
            "\n{}\n  📜 \u{1b}[1;97mDEBATE HISTORY\u{1b}[0m\n{}\n\n  \u{1b}[2mT\u{1b}[0m #7    \u{1b}[96mDEBUG\u{1b}[0m | {} | 3 providers | synth: — | 9.0s\n\n{}\n",
            bar,
            bar,
            "q".repeat(50),
            bar
        )
    );
}

#[test]
fn progress_is_told_in_a_line() {
    assert_eq!(tell_response(&answer("a", "é1"), "X"), "  X: ✅ 3 chars (1.2s)");
    assert_eq!(tell_response(&failure("a"), "X"), "  X: ❌ down");
}

#[test]
fn progress_is_green_or_red() {
    colored::control::set_override(true);
    assert_eq!(progress_line(&answer("a", "")), "  \u{1b}[32mA\u{1b}[0m: ✅ 0 chars (1.2s)");
    assert_eq!(progress_line(&failure("a")), "  \u{1b}[31mA\u{1b}[0m: ❌ down");
}

#[test]
fn banners_stand_between_rules() {
    colored::control::set_override(true);
    let rule = format!("\u{1b}[94m{}\u{1b}[0m", "═".repeat(60));
    assert_eq!(
        opening_banner(&DebateMode::Code, 3),
        format!("\n{}\n  🎯 \u{1b}[1;97mDEBATE: CODE REVIEW\u{1b}[0m — 3 providers\n{}\n", rule, rule)
    );
    assert_eq!(
        closing_banner(&number(12.5)),
        format!("\n{}\n  ⏱️  Total: 12.5s\n{}\n", rule, rule)
    );
}

#[test]
fn rounds_are_announced() {
    colored::control::set_override(true);
    assert_eq!(
        responding_line(3, false),
        "📡 \u{1b}[96mRound 1\u{1b}[0m: Dispatching to 3 providers in parallel..."
    );
    assert_eq!(
        responding_line(2, true),
        "📡 \u{1b}[96mRound 1\u{1b}[0m: Dispatching to 2 providers in parallel (streaming)..."
    );
    assert_eq!(
        auditing_line(),
        "\n🔍 \u{1b}[96mRound 2\u{1b}[0m: Cross-audit (each model reviews the others)..."
    );
    assert_eq!(
        synthesising_line(),
        "\n🧠 \u{1b}[96mRound 3\u{1b}[0m: Synthesis (merging all feedback)..."
    );
}

#[test]
fn the_best_are_named() {
    colored::control::set_override(true);
    assert_eq!(
        record_line("gpt"),
        "  🏆 Synthesis provider: \u{1b}[93mgpt\u{1b}[0m (highest historical score)"
    );
    assert_eq!(award_line("kiro"), "  🏆 Best initial response: \u{1b}[92mkiro\u{1b}[0m");
}

#[test]
fn a_style_starts_anew_behind_a_reset() {
    colored::control::set_override(true);
    let mut r = failure("a");
    r.label = "x\u{1b}[0my".to_string();
    assert_eq!(progress_line(&r), "  \u{1b}[31mx\u{1b}[0m\u{1b}[31my\u{1b}[0m: ❌ down");
}
