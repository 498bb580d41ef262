//! What is shown where colours are switched off.

use consensus::history::{DebateSummary, ProviderScore};
use consensus::number::Real;
use consensus::report::{format_history, format_scoreboard};

fn number(x: f64) -> Real {
    Real { bits: x.to_bits(), tenths: format!("{:.1}", x) }
}

#[test]
fn a_scoreboard_without_colours() {
    colored::control::set_override(false);
    let text = format_scoreboard(&[ProviderScore {
        provider: "gpt".to_string(),
        total_debates: 15,
        times_best: 8,
        total_audit_issues_found: 42,
        total_audit_issues_received: 12,
        score: number(40.0),
    }]);
    let bar = "═".repeat(70);
    assert_eq!(
        text,
        format!(
            "\n{}\n  📊 MODEL SCOREBOARD\n{}\n\n  Provider                Score Debates   Best  Found   Recv'd\n  {}\n  gpt                      40.0     15      8     42       12\n\n  Score formula: (best×3 + (debates-received)×2) / max(debates×5, 1) × 100\n{}\n",
            bar,
            bar,
            "─".repeat(62),
            bar
        )
    );
}

#[test]
fn a_history_without_colours() {
    colored::control::set_override(false);
    let text = format_history(&[DebateSummary {
        id: 1,
        timestamp: "2024-02-29T00:00:00Z".to_string(),
        mode: "QUICK".to_string(),
        prompt_preview: "Hello".to_string(),
        total_secs: number(0.25),
        num_providers: 2,
        synthesis_provider: Some("gpt".to_string()),
    }]);
    let bar = "═".repeat(70);
    assert_eq!(
        text,
        format!(
            "\n{}\n  📜 DEBATE HISTORY\n{}\n\n  2024-02-29T00:00:00Z #1    QUICK | Hello | 2 providers | synth: gpt | 0.2s\n\n{}\n",
            bar, bar, bar
        )
    );
}
