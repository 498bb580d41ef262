//! Debates, scores and history as they are shown.

use crate::api::{ModelResponse, ResponseView};
use crate::cli::DebateMode;
use crate::debate::{mode_name, mode_text, response_views, DebateResult, ResultView};
use crate::history::{DebateSummary, ProviderScore};
use crate::number::{is_less, not_a_number, place, Real};
use crate::paint::{
    bold_white, bright_blue, bright_cyan, bright_green, bright_yellow, dimmed, green, painted, red,
};
use crate::rounds::{count_valid, is_valid, law_valid_responses_are_counted, valid_count};
use crate::stream::glued;
use crate::text::{
    decimal, first_chars, lemma_occurs_between, lemma_occurs_within, occurs, pad_end, pad_start,
    padded_end, padded_start, picks, render, render_signed, repeat, repeated, signed_decimal,
    take_chars, texts,
};
use vstd::prelude::*;

verus! {

/// What a response came to: its text, or its error behind a mark.
pub open spec fn response_body(r: ResponseView, mark: Seq<char>) -> Seq<char> {
    match r.error {
        Some(e) => mark + e + "\n\n"@,
        None => r.content + "\n\n"@,
    }
}

/// How a response is shown.
pub enum Style {
    /// As an answer of its own.
    Answer,
    /// In the list of individual responses.
    Detail,
    /// As an audit.
    Audit,
}

/// A response as it is shown.
pub open spec fn response_section(r: ResponseView, style: Style) -> Seq<char> {
    match style {
        Style::Answer => "## "@ + r.label + "\n*("@ + r.elapsed_secs.tenths + "s)*\n\n"@
            + response_body(r, "❌ Error: "@),
        Style::Detail => "### "@ + r.label + " *("@ + r.elapsed_secs.tenths + "s)*\n"@
            + response_body(r, "❌ "@),
        Style::Audit => "### "@ + r.label + " → reviewed others\n"@ + response_body(r, "❌ "@),
    }
}

/// Responses as they are shown, one behind the other.
pub open spec fn response_sections(responses: Seq<ResponseView>, style: Style) -> Seq<char>
    decreases responses.len(),
{
    if responses.len() == 0 {
        Seq::empty()
    } else {
        response_sections(responses.drop_last(), style) + response_section(responses.last(), style)
    }
}

/// How many models answered, and who merged their answers.
pub open spec fn report_head(result: ResultView) -> Seq<char> {
    "**Models consulted:** "@ + decimal(valid_count(result.responses)) + "/"@ + decimal(
        result.responses.len(),
    ) + "\n"@ + match result.synthesis {
        Some(s) => "**Synthesized by:** "@ + s.label + "\n"@,
        None => Seq::empty(),
    } + "\n"@
}

/// The answer: the synthesis, or all responses where there is none.
pub open spec fn report_answer(result: ResultView) -> Seq<char> {
    match result.synthesis {
        Some(s) => "## ✅ Consensus Answer\n\n"@ + s.content,
        None => response_sections(result.responses, Style::Answer),
    }
}

/// The individual responses, where there is a synthesis of them.
pub open spec fn report_details(result: ResultView) -> Seq<char> {
    match result.synthesis {
        Some(s) =>
        "\n\n<details><summary>📋 Individual Responses (click to expand)</summary>\n\n"@
            + response_sections(result.responses, Style::Detail) + "</details>\n"@,
        None => Seq::empty(),
    }
}

/// The audits, where there are any.
pub open spec fn report_audits(result: ResultView) -> Seq<char> {
    if result.audits.len() > 0 {
        "\n<details><summary>🔍 Cross-Audit Feedback (click to expand)</summary>\n\n"@
            + response_sections(result.audits, Style::Audit) + "</details>\n"@
    } else {
        Seq::empty()
    }
}

/// The result of a debate as text.
pub open spec fn report_text(result: ResultView) -> Seq<char> {
    report_head(result) + report_answer(result) + report_details(result) + report_audits(result)
}

fn write_section(out: &mut String, r: &ModelResponse, style: &Style)
    ensures
        final(out)@ == old(out)@ + response_section(r@, *style),
{
    let mut section = String::new();
    match style {
        Style::Answer => {
            section.append("## ");
            section.append(r.label.as_str());
            section.append("\n*(");
            section.append(r.elapsed_secs.tenths.as_str());
            section.append("s)*\n\n");
        },
        Style::Detail => {
            section.append("### ");
            section.append(r.label.as_str());
            section.append(" *(");
            section.append(r.elapsed_secs.tenths.as_str());
            section.append("s)*\n");
        },
        Style::Audit => {
            section.append("### ");
            section.append(r.label.as_str());
            section.append(" → reviewed others\n");
        },
    }
    let mut body = String::new();
    match &r.error {
        Some(e) => {
            match style {
                Style::Answer => {
                    body.append("❌ Error: ");
                },
                _ => {
                    body.append("❌ ");
                },
            }
            body.append(e.as_str());
            body.append("\n\n");
        },
        None => {
            body.append(r.content.as_str());
            body.append("\n\n");
        },
    }
    section.append(body.as_str());
    assert(section@ == response_section(r@, *style));
    out.append(section.as_str());
}

fn write_sections(out: &mut String, responses: &Vec<ModelResponse>, style: Style)
    ensures
        final(out)@ == old(out)@ + response_sections(response_views(responses@), style),
{
    let ghost views = response_views(responses@);
    let ghost start = out@;
    let mut i: usize = 0;
    assert(views.take(0).len() == 0);
    assert(start + Seq::<char>::empty() == start);
    while i < responses.len()
        invariant
            i <= responses.len(),
            views == response_views(responses@),
            out@ == start + response_sections(views.take(i as int), style),
        decreases responses.len() - i,
    {
        let r = &responses[i];
        write_section(out, r, &style);
        i = i + 1;
        proof {
            let shown = response_sections(views.take(i - 1), style);
            assert(views.take(i as int).drop_last() == views.take(i - 1));
            assert(views.take(i as int).last() == r@);
            assert((start + shown) + response_section(r@, style) == start + (shown
                + response_section(r@, style)));
        }
    }
    assert(views.take(i as int) == views);
}

/// Formats the result of a debate as text.
pub fn format_text(result: &DebateResult) -> (out: String)
    ensures
        out@ == report_text(result@),
{
    let ghost view = result@;
    let valid: usize = count_valid(&result.responses);
    let mut out = "**Models consulted:** ".to_owned();
    out.append(render(valid as u64).as_str());
    out.append("/");
    out.append(render(result.responses.len() as u64).as_str());
    out.append("\n");
    let ghost count = out@;
    match &result.synthesis {
        Some(s) => {
            out.append("**Synthesized by:** ");
            out.append(s.label.as_str());
            out.append("\n");
            assert(out@ == count + ("**Synthesized by:** "@ + s.label@ + "\n"@));
        },
        None => {
            assert(count + Seq::<char>::empty() == count);
        },
    }
    out.append("\n");
    assert(out@ == report_head(view));
    match &result.synthesis {
        Some(s) => {
            out.append("## ✅ Consensus Answer\n\n");
            out.append(s.content.as_str());
            assert(out@ == report_head(view) + report_answer(view));
            let ghost before = out@;
            out.append(
                "\n\n<details><summary>📋 Individual Responses (click to expand)</summary>\n\n",
            );
            write_sections(&mut out, &result.responses, Style::Detail);
            out.append("</details>\n");
            assert(out@ == before + report_details(view));
        },
        None => {
            write_sections(&mut out, &result.responses, Style::Answer);
            assert(out@ == report_head(view) + report_answer(view));
            assert(out@ + Seq::<char>::empty() == out@);
        },
    }
    assert(out@ == report_head(view) + report_answer(view) + report_details(view));
    let ghost before = out@;
    assert(view.audits.len() == result.audits@.len());
    if result.audits.len() > 0 {
        out.append(
            "\n<details><summary>🔍 Cross-Audit Feedback (click to expand)</summary>\n\n",
        );
        write_sections(&mut out, &result.audits, Style::Audit);
        out.append("</details>\n");
        assert(out@ == before + report_audits(view));
    } else {
        assert(before + Seq::<char>::empty() == before);
    }
    out
}

/// Whether no response of a debate is without error.
pub fn all_failed(result: &DebateResult) -> (yes: bool)
    ensures
        yes == forall|i: int|
            0 <= i < result@.responses.len() ==> (#[trigger] result@.responses[i]).error is Some,
{
    let mut i: usize = 0;
    while i < result.responses.len()
        invariant
            i <= result.responses.len(),
            forall|k: int|
                0 <= k < i ==> (#[trigger] result@.responses[k]).error is Some,
        decreases result.responses.len() - i,
    {
        assert(result@.responses[i as int] == result.responses@[i as int]@);
        if result.responses[i].error.is_none() {
            assert(result@.responses[i as int].error is None);
            return false;
        }
        i = i + 1;
    }
    true
}

// The scoreboard.

/// Whether the score at place `i` is shown before that at place `j`: the higher one first, and of
/// equal ones the one that came first.
pub open spec fn shown_before(scores: Seq<ProviderScore>, i: int, j: int) -> bool {
    let a = place(scores[i].score.bits);
    let b = place(scores[j].score.bits);
    a > b || (a == b && i < j)
}

/// Whether `order` lists the places `0..count` in the order in which their scores are shown.
pub open spec fn is_ranking(scores: Seq<ProviderScore>, order: Seq<usize>, count: int) -> bool {
    &&& order.len() == count
    &&& forall|a: int| 0 <= a < order.len() ==> (#[trigger] order[a]) < count
    &&& forall|a: int, b: int|
        0 <= a < b < order.len() ==> shown_before(scores, #[trigger] order[a] as int, #[trigger]
            order[b] as int)
}

/// Whether all scores are numbers.
pub open spec fn all_numbers(scores: Seq<ProviderScore>) -> bool {
    forall|i: int| 0 <= i < scores.len() ==> !not_a_number((#[trigger] scores[i]).score.bits)
}

/// The order in which scores are shown: from high to low.
pub fn rank(scores: &[ProviderScore]) -> (order: Vec<usize>)
    requires
        all_numbers(scores@),
    ensures
        is_ranking(scores@, order@, scores@.len() as int),
{
    let mut order: Vec<usize> = Vec::new();
    let mut i: usize = 0;
    while i < scores.len()
        invariant
            i <= scores.len(),
            all_numbers(scores@),
            is_ranking(scores@, order@, i as int),
        decreases scores.len() - i,
    {
        let ghost before = order@;
        let mut p: usize = order.len();
        while p > 0 && is_less(scores[order[p - 1]].score.bits, scores[i].score.bits)
            invariant
                p <= order.len(),
                i < scores.len(),
                order@ == before,
                all_numbers(scores@),
                is_ranking(scores@, before, i as int),
                forall|k: int|
                    p <= k < before.len() ==> place(scores@[#[trigger] before[k] as int].score.bits)
                        < place(scores@[i as int].score.bits),
            decreases p,
        {
            assert(!not_a_number(scores@[before[p - 1] as int].score.bits));
            assert(!not_a_number(scores@[i as int].score.bits));
            p = p - 1;
        }
        proof {
            assert(!not_a_number(scores@[i as int].score.bits));
            assert forall|k: int| 0 <= k < p implies place(
                scores@[#[trigger] before[k] as int].score.bits,
            ) >= place(scores@[i as int].score.bits) by {
                assert(!not_a_number(scores@[before[p - 1] as int].score.bits));
                if k < p - 1 {
                    assert(shown_before(scores@, before[k] as int, before[p - 1] as int));
                }
            }
        }
        order.insert(p, i);
        i = i + 1;
        proof {
            let now = order@;
            assert(now == before.insert(p as int, (i - 1) as usize));
            assert forall|a: int, b: int| 0 <= a < b < now.len() implies shown_before(
                scores@,
                #[trigger] now[a] as int,
                #[trigger] now[b] as int,
            ) by {
                let x: int = if a < p {
                    a
                } else {
                    a - 1
                };
                let y: int = if b < p {
                    b
                } else {
                    b - 1
                };
                if a != p {
                    assert(now[a] == before[x]);
                }
                if b != p {
                    assert(now[b] == before[y]);
                }
                if a != p && b != p {
                    assert(shown_before(scores@, before[x] as int, before[y] as int));
                }
            }
        }
    }
    order
}

/// A list has one ranking only.
pub proof fn law_one_ranking(
    scores: Seq<ProviderScore>,
    order: Seq<usize>,
    other: Seq<usize>,
    count: int,
)
    requires
        is_ranking(scores, order, count),
        is_ranking(scores, other, count),
    ensures
        order == other,
{
    lemma_ranking_prefix(scores, order, other, count, count);
    assert(order == other);
}

/// Every place is in a ranking.
proof fn lemma_ranking_is_complete(
    scores: Seq<ProviderScore>,
    order: Seq<usize>,
    count: int,
    at: usize,
)
    requires
        is_ranking(scores, order, count),
        at < count,
    ensures
        order.contains(at),
{
    if !order.contains(at) {
        let range = vstd::set_lib::set_int_range(0, count);
        let list = order.map_values(|u: usize| u as int);
        let ints: Set<int> = list.to_set();
        assert(list.no_duplicates()) by {
            assert forall|a: int, b: int| 0 <= a < list.len() && 0 <= b < list.len() && a
                != b implies list[a] != list[b] by {
                if a < b {
                    assert(shown_before(scores, order[a] as int, order[b] as int));
                } else {
                    assert(shown_before(scores, order[b] as int, order[a] as int));
                }
            }
        }
        list.unique_seq_to_set();
        vstd::set_lib::lemma_int_range(0, count);
        assert(ints.subset_of(range.remove(at as int))) by {
            assert forall|x: int| ints.contains(x) implies range.remove(at as int).contains(x) by {
                let a = choose|a: int| 0 <= a < list.len() && list[a] == x;
                assert(order[a] as int == x);
                assert(order[a] < count);
            }
        }
        vstd::set_lib::lemma_len_subset(ints, range.remove(at as int));
    }
}

proof fn lemma_ranking_prefix(
    scores: Seq<ProviderScore>,
    order: Seq<usize>,
    other: Seq<usize>,
    count: int,
    upto: int,
)
    requires
        is_ranking(scores, order, count),
        is_ranking(scores, other, count),
        0 <= upto <= count,
    ensures
        forall|k: int| 0 <= k < upto ==> order[k] == other[k],
    decreases upto,
{
    if upto > 0 {
        lemma_ranking_prefix(scores, order, other, count, upto - 1);
        let k = upto - 1;
        if order[k] != other[k] {
            assert(order[k] < count);
            assert(other[k] < count);
            lemma_ranking_is_complete(scores, other, count, order[k]);
            lemma_ranking_is_complete(scores, order, count, other[k]);
            let a = choose|a: int| 0 <= a < other.len() && other[a] == order[k];
            let b = choose|b: int| 0 <= b < order.len() && order[b] == other[k];
            if a < k {
                assert(order[a] == other[a]);
                assert(shown_before(scores, order[a] as int, order[k] as int));
            }
            if b < k {
                assert(order[b] == other[b]);
                assert(shown_before(scores, other[b] as int, other[k] as int));
            }
            assert(shown_before(scores, other[k] as int, other[a] as int));
            assert(shown_before(scores, order[k] as int, order[b] as int));
        }
    }
}

/// The bits of 80, from which on a score is good.
pub const GOOD: u64 = 0x4054_0000_0000_0000;

/// The bits of 50, from which on a score is fair.
pub const FAIR: u64 = 0x4049_0000_0000_0000;

/// The colour of a score: green where it is good, yellow where it is fair, red otherwise.
pub open spec fn score_codes(bits: u64) -> Seq<char> {
    if place(bits) >= place(GOOD) {
        "92"@
    } else if place(bits) >= place(FAIR) {
        "93"@
    } else {
        "31"@
    }
}

fn paint_score(bits: u64, text: &str) -> (out: String)
    requires
        !not_a_number(bits),
    ensures
        painted(score_codes(bits), text@, out@),
{
    if !is_less(bits, GOOD) {
        bright_green(text)
    } else if !is_less(bits, FAIR) {
        bright_yellow(text)
    } else {
        red(text)
    }
}

/// The coloured pieces of a scoreboard.
pub struct ScoreboardPaint {
    /// The double rule.
    pub bar: String,
    pub title: String,
    /// The six headings, each as wide as its column.
    pub headings: Vec<String>,
    /// The score of each provider, in the order of the scores.
    pub scores: Vec<String>,
}

/// The coloured pieces of a scoreboard as a mathematical value.
pub struct ScoreboardPaintView {
    pub bar: Seq<char>,
    pub title: Seq<char>,
    pub headings: Seq<Seq<char>>,
    pub scores: Seq<Seq<char>>,
}

impl View for ScoreboardPaint {
    type V = ScoreboardPaintView;

    open spec fn view(&self) -> ScoreboardPaintView {
        ScoreboardPaintView {
            bar: self.bar@,
            title: self.title@,
            headings: texts(self.headings@),
            scores: texts(self.scores@),
        }
    }
}

/// The double rule of scoreboard and history.
pub open spec fn bar_text() -> Seq<char> {
    repeated('═', 70)
}

/// The headings of a scoreboard, each as wide as its column.
pub open spec fn heading_texts() -> Seq<Seq<char>> {
    seq![
        padded_end("Provider"@, 20, ' '),
        padded_start("Score"@, 8, ' '),
        padded_start("Debates"@, 6, ' '),
        padded_start("Best"@, 6, ' '),
        padded_start("Found"@, 6, ' '),
        padded_start("Recv'd"@, 8, ' '),
    ]
}

/// Whether the pieces of a scoreboard are the right texts in the right colours.
pub open spec fn scoreboard_painted(
    scores: Seq<ProviderScore>,
    paint: ScoreboardPaintView,
) -> bool {
    &&& painted("94"@, bar_text(), paint.bar)
    &&& painted("1;97"@, "MODEL SCOREBOARD"@, paint.title)
    &&& paint.headings.len() == 6
    &&& forall|i: int|
        0 <= i < 6 ==> painted("1;97"@, heading_texts()[i], #[trigger] paint.headings[i])
    &&& paint.scores.len() == scores.len()
    &&& forall|i: int|
        0 <= i < scores.len() ==> painted(
            score_codes(scores[i].score.bits),
            scores[i].score@.tenths,
            #[trigger] paint.scores[i],
        )
}

/// The row of a provider: its name and its score, then how often it debated and was best, and the
/// issues that it found and received.
pub open spec fn score_row(s: ProviderScore, score: Seq<char>) -> Seq<char> {
    "  "@ + padded_end(s.provider@, 20, ' ') + " "@ + padded_start(score, 8, ' ') + " "@
        + padded_start(signed_decimal(s.total_debates as int), 6, ' ') + " "@ + padded_start(
        signed_decimal(s.times_best as int),
        6,
        ' ',
    ) + " "@ + padded_start(signed_decimal(s.total_audit_issues_found as int), 6, ' ') + " "@
        + padded_start(signed_decimal(s.total_audit_issues_received as int), 8, ' ') + "\n"@
}

/// The rows of the providers at the listed places.
pub open spec fn score_rows(
    scores: Seq<ProviderScore>,
    order: Seq<usize>,
    painted_scores: Seq<Seq<char>>,
) -> Seq<char>
    decreases order.len(),
{
    if order.len() == 0 {
        Seq::empty()
    } else {
        let at = order.last() as int;
        score_rows(scores, order.drop_last(), painted_scores) + score_row(
            scores[at],
            painted_scores[at],
        )
    }
}

/// What stands above the rows of a scoreboard.
pub open spec fn scoreboard_head(paint: ScoreboardPaintView) -> Seq<char> {
    "\n"@ + paint.bar + "\n  📊 "@ + paint.title + "\n"@ + paint.bar + "\n\n  "@ + paint.headings[0]
        + " "@ + paint.headings[1] + " "@ + paint.headings[2] + " "@ + paint.headings[3] + " "@
        + paint.headings[4] + " "@ + paint.headings[5] + "\n  "@ + repeated('─', 62) + "\n"@
}

/// A scoreboard with its pieces in colour and its rows in the given order.
pub open spec fn scoreboard_text(
    scores: Seq<ProviderScore>,
    order: Seq<usize>,
    paint: ScoreboardPaintView,
) -> Seq<char> {
    scoreboard_head(paint) + score_rows(scores, order, paint.scores)
        + "\n  Score formula: (best×3 + (debates-received)×2) / max(debates×5, 1) × 100\n"@
        + paint.bar + "\n"@
}

/// What is shown where no debate was scored.
pub open spec fn no_scores() -> Seq<char> {
    "No scores yet. Run some debates first!\n"@
}

fn write_score_row(s: &ProviderScore, score: &str) -> (row: String)
    ensures
        row@ == score_row(*s, score@),
{
    let mut row = "  ".to_owned();
    row.append(pad_end(s.provider.as_str(), 20, ' ').as_str());
    row.append(" ");
    row.append(pad_start(score, 8, ' ').as_str());
    row.append(" ");
    row.append(pad_start(render_signed(s.total_debates).as_str(), 6, ' ').as_str());
    row.append(" ");
    row.append(pad_start(render_signed(s.times_best).as_str(), 6, ' ').as_str());
    row.append(" ");
    row.append(pad_start(render_signed(s.total_audit_issues_found).as_str(), 6, ' ').as_str());
    row.append(" ");
    row.append(pad_start(render_signed(s.total_audit_issues_received).as_str(), 8, ' ').as_str());
    row.append("\n");
    row
}

/// Lays out a scoreboard whose pieces are in colour. The rows go from the highest score to the
/// lowest.
pub fn layout_scoreboard(scores: &[ProviderScore], paint: &ScoreboardPaint) -> (out: String)
    requires
        all_numbers(scores@),
        paint@.headings.len() == 6,
        paint@.scores.len() == scores@.len(),
    ensures
        exists|order: Seq<usize>|
            is_ranking(scores@, order, scores@.len() as int) && out@ == scoreboard_text(
                scores@,
                order,
                paint@,
            ),
{
    let order = rank(scores);
    let ghost view = paint@;
    let mut out = "\n".to_owned();
    out.append(paint.bar.as_str());
    out.append("\n  📊 ");
    out.append(paint.title.as_str());
    out.append("\n");
    out.append(paint.bar.as_str());
    out.append("\n\n  ");
    out.append(paint.headings[0].as_str());
    out.append(" ");
    out.append(paint.headings[1].as_str());
    out.append(" ");
    out.append(paint.headings[2].as_str());
    out.append(" ");
    out.append(paint.headings[3].as_str());
    out.append(" ");
    out.append(paint.headings[4].as_str());
    out.append(" ");
    out.append(paint.headings[5].as_str());
    out.append("\n  ");
    out.append(repeat('─', 62).as_str());
    out.append("\n");
    assert(out@ == scoreboard_head(view));
    let mut k: usize = 0;
    assert(order@.take(0).len() == 0);
    assert(scoreboard_head(view) + Seq::<char>::empty() == scoreboard_head(view));
    while k < order.len()
        invariant
            k <= order.len(),
            view == paint@,
            view.scores.len() == scores@.len(),
            is_ranking(scores@, order@, scores@.len() as int),
            out@ == scoreboard_head(view) + score_rows(
                scores@,
                order@.take(k as int),
                view.scores,
            ),
        decreases order.len() - k,
    {
        let at: usize = order[k];
        assert(order@[k as int] < scores@.len());
        assert(view.scores[at as int] == paint.scores@[at as int]@);
        let row = write_score_row(&scores[at], paint.scores[at].as_str());
        out.append(row.as_str());
        k = k + 1;
        proof {
            let shown = score_rows(scores@, order@.take(k - 1), view.scores);
            assert(order@.take(k as int).drop_last() == order@.take(k - 1));
            assert((scoreboard_head(view) + shown) + row@ == scoreboard_head(view) + (shown
                + row@));
        }
    }
    assert(order@.take(k as int) == order@);
    out.append("\n  Score formula: (best×3 + (debates-received)×2) / max(debates×5, 1) × 100\n");
    out.append(paint.bar.as_str());
    out.append("\n");
    assert(out@ == scoreboard_text(scores@, order@, view));
    out
}

fn paint_headings() -> (headings: Vec<String>)
    ensures
        headings@.len() == 6,
        forall|i: int|
            0 <= i < 6 ==> painted("1;97"@, heading_texts()[i], #[trigger] texts(headings@)[i]),
{
    let mut headings: Vec<String> = Vec::new();
    headings.push(bold_white(pad_end("Provider", 20, ' ').as_str()));
    headings.push(bold_white(pad_start("Score", 8, ' ').as_str()));
    headings.push(bold_white(pad_start("Debates", 6, ' ').as_str()));
    headings.push(bold_white(pad_start("Best", 6, ' ').as_str()));
    headings.push(bold_white(pad_start("Found", 6, ' ').as_str()));
    headings.push(bold_white(pad_start("Recv'd", 8, ' ').as_str()));
    assert forall|i: int| 0 <= i < 6 implies painted(
        "1;97"@,
        heading_texts()[i],
        #[trigger] texts(headings@)[i],
    ) by {
        assert(texts(headings@)[i] == headings@[i]@);
    }
    headings
}

/// Formats the scores of providers for a terminal.
pub fn format_scoreboard(scores: &[ProviderScore]) -> (out: String)
    requires
        all_numbers(scores@),
    ensures
        scores@.len() == 0 ==> out@ == no_scores(),
        scores@.len() > 0 ==> exists|order: Seq<usize>, paint: ScoreboardPaintView|
            is_ranking(scores@, order, scores@.len() as int) && scoreboard_painted(scores@, paint)
                && out@ == #[trigger] scoreboard_text(scores@, order, paint),
{
    if scores.len() == 0 {
        return "No scores yet. Run some debates first!\n".to_owned();
    }
    let mut painted_scores: Vec<String> = Vec::new();
    let mut i: usize = 0;
    while i < scores.len()
        invariant
            i <= scores.len(),
            all_numbers(scores@),
            painted_scores@.len() == i,
            forall|k: int|
                0 <= k < i ==> painted(
                    score_codes(scores@[k].score.bits),
                    scores@[k].score@.tenths,
                    (#[trigger] painted_scores@[k])@,
                ),
        decreases scores.len() - i,
    {
        let score = &scores[i].score;
        assert(!not_a_number(scores@[i as int].score.bits));
        painted_scores.push(paint_score(score.bits, score.tenths.as_str()));
        i = i + 1;
    }
    let paint = ScoreboardPaint {
        bar: bright_blue(repeat('═', 70).as_str()),
        title: bold_white("MODEL SCOREBOARD"),
        headings: paint_headings(),
        scores: painted_scores,
    };
    proof {
        let view = paint@;
        assert forall|k: int| 0 <= k < scores@.len() implies painted(
            score_codes(scores@[k].score.bits),
            scores@[k].score@.tenths,
            #[trigger] view.scores[k],
        ) by {
            assert(view.scores[k] == painted_scores@[k]@);
        }
        assert(scoreboard_painted(scores@, view));
    }
    layout_scoreboard(scores, &paint)
}

// The history.

/// The coloured pieces of a history.
pub struct HistoryPaint {
    /// The double rule.
    pub bar: String,
    pub title: String,
    /// The time of each debate.
    pub timestamps: Vec<String>,
    /// The mode of each debate.
    pub modes: Vec<String>,
}

/// The coloured pieces of a history as a mathematical value.
pub struct HistoryPaintView {
    pub bar: Seq<char>,
    pub title: Seq<char>,
    pub timestamps: Seq<Seq<char>>,
    pub modes: Seq<Seq<char>>,
}

impl View for HistoryPaint {
    type V = HistoryPaintView;

    open spec fn view(&self) -> HistoryPaintView {
        HistoryPaintView {
            bar: self.bar@,
            title: self.title@,
            timestamps: texts(self.timestamps@),
            modes: texts(self.modes@),
        }
    }
}

/// Whether the pieces of a history are the right texts in the right colours.
pub open spec fn history_painted(
    summaries: Seq<DebateSummary>,
    paint: HistoryPaintView,
) -> bool {
    &&& painted("94"@, bar_text(), paint.bar)
    &&& painted("1;97"@, "DEBATE HISTORY"@, paint.title)
    &&& paint.timestamps.len() == summaries.len()
    &&& forall|i: int|
        0 <= i < summaries.len() ==> painted(
            "2"@,
            summaries[i].timestamp@,
            #[trigger] paint.timestamps[i],
        )
    &&& paint.modes.len() == summaries.len()
    &&& forall|i: int|
        0 <= i < summaries.len() ==> painted("96"@, summaries[i].mode@, #[trigger] paint.modes[i])
}

/// The row of a debate.
pub open spec fn summary_row(
    s: DebateSummary,
    timestamp: Seq<char>,
    mode: Seq<char>,
) -> Seq<char> {
    "  "@ + timestamp + " #"@ + padded_end(signed_decimal(s.id as int), 4, ' ') + " "@ + mode
        + " | "@ + first_chars(s.prompt_preview@, 50) + " | "@ + decimal(s.num_providers as nat)
        + " providers | synth: "@ + match s.synthesis_provider {
        Some(p) => p@,
        None => "—"@,
    } + " | "@ + s.total_secs@.tenths + "s\n"@
}

/// The rows of debates.
pub open spec fn summary_rows(
    summaries: Seq<DebateSummary>,
    paint: HistoryPaintView,
    count: int,
) -> Seq<char>
    decreases count,
{
    if count <= 0 {
        Seq::empty()
    } else {
        summary_rows(summaries, paint, count - 1) + summary_row(
            summaries[count - 1],
            paint.timestamps[count - 1],
            paint.modes[count - 1],
        )
    }
}

/// A history with its pieces in colour.
pub open spec fn history_text(
    summaries: Seq<DebateSummary>,
    paint: HistoryPaintView,
) -> Seq<char> {
    "\n"@ + paint.bar + "\n  📜 "@ + paint.title + "\n"@ + paint.bar + "\n\n"@ + summary_rows(
        summaries,
        paint,
        summaries.len() as int,
    ) + "\n"@ + paint.bar + "\n"@
}

/// What is shown where there is no history.
pub open spec fn no_history() -> Seq<char> {
    "No debates in history yet.\n"@
}

fn write_summary_row(s: &DebateSummary, timestamp: &str, mode: &str) -> (row: String)
    ensures
        row@ == summary_row(*s, timestamp@, mode@),
{
    let mut row = "  ".to_owned();
    row.append(timestamp);
    row.append(" #");
    row.append(pad_end(render_signed(s.id).as_str(), 4, ' ').as_str());
    row.append(" ");
    row.append(mode);
    row.append(" | ");
    row.append(take_chars(s.prompt_preview.as_str(), 50).as_str());
    row.append(" | ");
    row.append(render(s.num_providers as u64).as_str());
    row.append(" providers | synth: ");
    match &s.synthesis_provider {
        Some(p) => {
            row.append(p.as_str());
        },
        None => {
            row.append("—");
        },
    }
    row.append(" | ");
    row.append(s.total_secs.tenths.as_str());
    row.append("s\n");
    row
}

/// Lays out a history whose pieces are in colour.
pub fn layout_history(summaries: &[DebateSummary], paint: &HistoryPaint) -> (out: String)
    requires
        paint@.timestamps.len() == summaries@.len(),
        paint@.modes.len() == summaries@.len(),
    ensures
        out@ == history_text(summaries@, paint@),
{
    let ghost view = paint@;
    let mut out = "\n".to_owned();
    out.append(paint.bar.as_str());
    out.append("\n  📜 ");
    out.append(paint.title.as_str());
    out.append("\n");
    out.append(paint.bar.as_str());
    out.append("\n\n");
    let ghost start = out@;
    let mut i: usize = 0;
    assert(start + Seq::<char>::empty() == start);
    while i < summaries.len()
        invariant
            i <= summaries.len(),
            view == paint@,
            view.timestamps.len() == summaries@.len(),
            view.modes.len() == summaries@.len(),
            out@ == start + summary_rows(summaries@, view, i as int),
        decreases summaries.len() - i,
    {
        assert(view.timestamps[i as int] == paint.timestamps@[i as int]@);
        assert(view.modes[i as int] == paint.modes@[i as int]@);
        let row = write_summary_row(
            &summaries[i],
            paint.timestamps[i].as_str(),
            paint.modes[i].as_str(),
        );
        out.append(row.as_str());
        i = i + 1;
        proof {
            let shown = summary_rows(summaries@, view, i - 1);
            assert((start + shown) + row@ == start + (shown + row@));
        }
    }
    out.append("\n");
    out.append(paint.bar.as_str());
    out.append("\n");
    out
}

/// Formats summaries of debates for a terminal.
pub fn format_history(summaries: &[DebateSummary]) -> (out: String)
    ensures
        summaries@.len() == 0 ==> out@ == no_history(),
        summaries@.len() > 0 ==> exists|paint: HistoryPaintView|
            history_painted(summaries@, paint) && out@ == #[trigger] history_text(
                summaries@,
                paint,
            ),
{
    if summaries.len() == 0 {
        return "No debates in history yet.\n".to_owned();
    }
    let mut timestamps: Vec<String> = Vec::new();
    let mut modes: Vec<String> = Vec::new();
    let mut i: usize = 0;
    while i < summaries.len()
        invariant
            i <= summaries.len(),
            timestamps@.len() == i,
            modes@.len() == i,
            forall|k: int|
                0 <= k < i ==> painted(
                    "2"@,
                    summaries@[k].timestamp@,
                    (#[trigger] timestamps@[k])@,
                ),
            forall|k: int|
                0 <= k < i ==> painted("96"@, summaries@[k].mode@, (#[trigger] modes@[k])@),
        decreases summaries.len() - i,
    {
        timestamps.push(dimmed(summaries[i].timestamp.as_str()));
        modes.push(bright_cyan(summaries[i].mode.as_str()));
        i = i + 1;
    }
    let paint = HistoryPaint {
        bar: bright_blue(repeat('═', 70).as_str()),
        title: bold_white("DEBATE HISTORY"),
        timestamps,
        modes,
    };
    proof {
        let view = paint@;
        assert forall|k: int| 0 <= k < summaries@.len() implies painted(
            "2"@,
            summaries@[k].timestamp@,
            #[trigger] view.timestamps[k],
        ) by {
            assert(view.timestamps[k] == timestamps@[k]@);
        }
        assert forall|k: int| 0 <= k < summaries@.len() implies painted(
            "96"@,
            summaries@[k].mode@,
            #[trigger] view.modes[k],
        ) by {
            assert(view.modes[k] == modes@[k]@);
        }
        assert(history_painted(summaries@, view));
    }
    layout_history(summaries, &paint)
}

// Progress.

/// What is told of a response as soon as it is there, given the label in colour: its error, or its
/// size and how long it took.
pub open spec fn progress_text(r: ResponseView, label: Seq<char>) -> Seq<char> {
    match r.error {
        Some(e) => "  "@ + label + ": ❌ "@ + e,
        None => "  "@ + label + ": ✅ "@ + decimal(vstd::utf8::encode_utf8(r.content).len())
            + " chars ("@ + r.elapsed_secs.tenths + "s)"@,
    }
}

/// Tells of a response, given its label in colour.
pub fn tell_response(r: &ModelResponse, label: &str) -> (out: String)
    ensures
        out@ == progress_text(r@, label@),
{
    let mut out = "  ".to_owned();
    out.append(label);
    match &r.error {
        Some(e) => {
            out.append(": ❌ ");
            out.append(e.as_str());
        },
        None => {
            let size: usize = r.content.as_str().as_bytes().len();
            out.append(": ✅ ");
            out.append(render(size as u64).as_str());
            out.append(" chars (");
            out.append(r.elapsed_secs.tenths.as_str());
            out.append("s)");
        },
    }
    out
}

/// Tells of a response, with its label in red where it failed and in green otherwise.
pub fn progress_line(r: &ModelResponse) -> (out: String)
    ensures
        exists|label: Seq<char>|
            painted(
                if r@.error is Some {
                    "31"@
                } else {
                    "32"@
                },
                r@.label,
                label,
            ) && out@ == #[trigger] progress_text(r@, label),
{
    let label = if r.error.is_some() {
        red(r.label.as_str())
    } else {
        green(r.label.as_str())
    };
    tell_response(r, label.as_str())
}

/// The double rule around the banners of a debate.
pub open spec fn rule_text() -> Seq<char> {
    repeated('═', 60)
}

/// What is told when a debate opens, given the rule and the title in colour.
pub open spec fn opening_text(rule: Seq<char>, title: Seq<char>, providers: nat) -> Seq<char> {
    "\n"@ + rule + "\n  🎯 "@ + title + " — "@ + decimal(providers) + " providers\n"@ + rule + "\n"@
}

/// Tells that a debate opens: its mode, and how many providers take part.
pub fn opening_banner(mode: &DebateMode, providers: usize) -> (out: String)
    ensures
        exists|rule: Seq<char>, title: Seq<char>|
            painted("94"@, rule_text(), rule) && painted(
                "1;97"@,
                "DEBATE: "@ + mode_text(*mode),
                title,
            ) && out@ == #[trigger] opening_text(rule, title, providers as nat),
{
    let rule = bright_blue(repeat('═', 60).as_str());
    let mut name = "DEBATE: ".to_owned();
    name.append(mode_name(mode));
    let title = bold_white(name.as_str());
    let mut out = "\n".to_owned();
    out.append(rule.as_str());
    out.append("\n  🎯 ");
    out.append(title.as_str());
    out.append(" — ");
    out.append(render(providers as u64).as_str());
    out.append(" providers\n");
    out.append(rule.as_str());
    out.append("\n");
    assert(out@ == opening_text(rule@, title@, providers as nat));
    out
}

/// What is told when a debate is over, given the rule in colour and the seconds that it took.
pub open spec fn closing_text(rule: Seq<char>, secs: Seq<char>) -> Seq<char> {
    "\n"@ + rule + "\n  ⏱️  Total: "@ + secs + "s\n"@ + rule + "\n"@
}

/// Tells that a debate is over, and how long it took.
pub fn closing_banner(total_secs: &Real) -> (out: String)
    ensures
        exists|rule: Seq<char>|
            painted("94"@, rule_text(), rule) && out@ == #[trigger] closing_text(
                rule,
                total_secs@.tenths,
            ),
{
    let rule = bright_blue(repeat('═', 60).as_str());
    let mut out = "\n".to_owned();
    out.append(rule.as_str());
    out.append("\n  ⏱️  Total: ");
    out.append(total_secs.tenths.as_str());
    out.append("s\n");
    out.append(rule.as_str());
    out.append("\n");
    assert(out@ == closing_text(rule@, total_secs@.tenths));
    out
}

/// What is told when the providers are asked, given the number of the round in colour.
pub open spec fn responding_text(round: Seq<char>, providers: nat, stream: bool) -> Seq<char> {
    "📡 "@ + round + ": Dispatching to "@ + decimal(providers) + " providers in parallel"@
        + if stream {
        " (streaming)"@
    } else {
        ""@
    } + "..."@
}

/// Tells that the providers are asked, and whether their answers are read while they arrive.
pub fn responding_line(providers: usize, stream: bool) -> (out: String)
    ensures
        exists|round: Seq<char>|
            painted("96"@, "Round 1"@, round) && out@ == #[trigger] responding_text(
                round,
                providers as nat,
                stream,
            ),
{
    let round = bright_cyan("Round 1");
    let mut out = "📡 ".to_owned();
    out.append(round.as_str());
    out.append(": Dispatching to ");
    out.append(render(providers as u64).as_str());
    out.append(" providers in parallel");
    out.append(
        if stream {
            " (streaming)"
        } else {
            ""
        },
    );
    out.append("...");
    assert(out@ == responding_text(round@, providers as nat, stream));
    out
}

/// What is told when the providers audit each other, given the number of the round in colour.
pub open spec fn auditing_text(round: Seq<char>) -> Seq<char> {
    "\n🔍 "@ + round + ": Cross-audit (each model reviews the others)..."@
}

/// Tells that the providers audit each other.
pub fn auditing_line() -> (out: String)
    ensures
        exists|round: Seq<char>|
            painted("96"@, "Round 2"@, round) && out@ == #[trigger] auditing_text(round),
{
    let round = bright_cyan("Round 2");
    let mut out = "\n🔍 ".to_owned();
    out.append(round.as_str());
    out.append(": Cross-audit (each model reviews the others)...");
    assert(out@ == auditing_text(round@));
    out
}

/// What is told when everything is merged, given the number of the round in colour.
pub open spec fn synthesising_text(round: Seq<char>) -> Seq<char> {
    "\n🧠 "@ + round + ": Synthesis (merging all feedback)..."@
}

/// Tells that everything is merged.
pub fn synthesising_line() -> (out: String)
    ensures
        exists|round: Seq<char>|
            painted("96"@, "Round 3"@, round) && out@ == #[trigger] synthesising_text(round),
{
    let round = bright_cyan("Round 3");
    let mut out = "\n🧠 ".to_owned();
    out.append(round.as_str());
    out.append(": Synthesis (merging all feedback)...");
    assert(out@ == synthesising_text(round@));
    out
}

/// What is told of the provider with the best record, given its name in colour.
pub open spec fn record_text(name: Seq<char>) -> Seq<char> {
    "  🏆 Synthesis provider: "@ + name + " (highest historical score)"@
}

/// Tells which provider has the best record.
pub fn record_line(provider: &str) -> (out: String)
    ensures
        exists|name: Seq<char>|
            painted("93"@, provider@, name) && out@ == #[trigger] record_text(name),
{
    let name = bright_yellow(provider);
    let mut out = "  🏆 Synthesis provider: ".to_owned();
    out.append(name.as_str());
    out.append(" (highest historical score)");
    assert(out@ == record_text(name@));
    out
}

/// What is told of the provider that the award goes to, given its name in colour.
pub open spec fn award_text(name: Seq<char>) -> Seq<char> {
    "  🏆 Best initial response: "@ + name
}

/// Tells which provider the award goes to.
pub fn award_line(provider: &str) -> (out: String)
    ensures
        exists|name: Seq<char>|
            painted("92"@, provider@, name) && out@ == #[trigger] award_text(name),
{
    let name = bright_green(provider);
    let mut out = "  🏆 Best initial response: ".to_owned();
    out.append(name.as_str());
    assert(out@ == award_text(name@));
    out
}

// What is shown.

/// What a response came to, where its error stands behind a mark.
pub open spec fn came_to(r: ResponseView, mark: Seq<char>) -> Seq<char> {
    if r.error is Some {
        mark + r.error->0 + "\n\n"@
    } else {
        r.content + "\n\n"@
    }
}

/// Responses as answers of their own.
pub open spec fn as_answers(responses: Seq<ResponseView>) -> Seq<Seq<char>> {
    Seq::new(
        responses.len(),
        |i: int|
            "## "@ + responses[i].label + "\n*("@ + responses[i].elapsed_secs.tenths + "s)*\n\n"@
                + came_to(responses[i], "❌ Error: "@),
    )
}

/// Responses in a list of details.
pub open spec fn as_details(responses: Seq<ResponseView>) -> Seq<Seq<char>> {
    Seq::new(
        responses.len(),
        |i: int|
            "### "@ + responses[i].label + " *("@ + responses[i].elapsed_secs.tenths + "s)*\n"@
                + came_to(responses[i], "❌ "@),
    )
}

/// Responses as audits.
pub open spec fn as_audits(audits: Seq<ResponseView>) -> Seq<Seq<char>> {
    Seq::new(
        audits.len(),
        |i: int|
            "### "@ + audits[i].label + " → reviewed others\n"@ + came_to(audits[i], "❌ "@),
    )
}

proof fn lemma_sections(responses: Seq<ResponseView>)
    ensures
        response_sections(responses, Style::Answer) == glued(as_answers(responses)),
        response_sections(responses, Style::Detail) == glued(as_details(responses)),
        response_sections(responses, Style::Audit) == glued(as_audits(responses)),
    decreases responses.len(),
{
    if responses.len() > 0 {
        let rest = responses.drop_last();
        lemma_sections(rest);
        assert(as_answers(responses).drop_last() =~= as_answers(rest));
        assert(as_details(responses).drop_last() =~= as_details(rest));
        assert(as_audits(responses).drop_last() =~= as_audits(rest));
    }
}

proof fn lemma_glued_parts_occur(parts: Seq<Seq<char>>, i: int)
    requires
        0 <= i < parts.len(),
    ensures
        occurs(glued(parts), parts[i]),
    decreases parts.len(),
{
    let none = Seq::<char>::empty();
    let before = glued(parts.drop_last());
    if i == parts.len() - 1 {
        lemma_occurs_between(before, parts.last(), none);
        assert(before + parts.last() + none == glued(parts));
    } else {
        lemma_glued_parts_occur(parts.drop_last(), i);
        lemma_occurs_within(none, before, parts.last(), parts[i]);
        assert(none + before + parts.last() == glued(parts));
    }
}

/// A report starts with how many of the models answered. Where there is a synthesis, it shows who
/// merged the answers, the synthesis and the details of all responses, and otherwise all responses
/// as answers. The audits stand at its end, with or without a synthesis. All are in order, and with
/// all of their text or their error.
pub proof fn law_what_a_report_shows(result: ResultView) -> (kept: Seq<int>)
    ensures
        picks(kept, result.responses.len() as int, is_valid(result.responses)),
        report_text(result) == "**Models consulted:** "@ + decimal(kept.len()) + "/"@ + decimal(
            result.responses.len(),
        ) + "\n"@ + (if result.synthesis is Some {
            "**Synthesized by:** "@ + result.synthesis->0.label + "\n"@ + "\n"@
                + "## ✅ Consensus Answer\n\n"@ + result.synthesis->0.content
                + "\n\n<details><summary>📋 Individual Responses (click to expand)</summary>\n\n"@
                + glued(as_details(result.responses)) + "</details>\n"@
        } else {
            "\n"@ + glued(as_answers(result.responses))
        }) + (if result.audits.len() > 0 {
            "\n<details><summary>🔍 Cross-Audit Feedback (click to expand)</summary>\n\n"@ + glued(
                as_audits(result.audits),
            ) + "</details>\n"@
        } else {
            Seq::empty()
        }),
{
    let kept = law_valid_responses_are_counted(result.responses);
    lemma_sections(result.responses);
    lemma_sections(result.audits);
    let text = report_text(result);
    let count = "**Models consulted:** "@ + decimal(kept.len()) + "/"@ + decimal(
        result.responses.len(),
    ) + "\n"@;
    let tail = if result.audits.len() > 0 {
        "\n<details><summary>🔍 Cross-Audit Feedback (click to expand)</summary>\n\n"@ + glued(
            as_audits(result.audits),
        ) + "</details>\n"@
    } else {
        Seq::empty()
    };
    assert(report_audits(result) == tail);
    match result.synthesis {
        Some(s) => {
            let middle = "**Synthesized by:** "@ + s.label + "\n"@ + "\n"@
                + "## ✅ Consensus Answer\n\n"@ + s.content
                + "\n\n<details><summary>📋 Individual Responses (click to expand)</summary>\n\n"@
                + glued(as_details(result.responses)) + "</details>\n"@;
            assert(report_head(result) + report_answer(result) + report_details(result) =~= count
                + middle);
        },
        None => {
            let middle = "\n"@ + glued(as_answers(result.responses));
            assert(report_head(result) + report_answer(result) + report_details(result) =~= count
                + middle);
        },
    }
    kept
}

/// Every audit is shown under its author's label, with all of its text or its error, whether or not
/// there is a synthesis. So is every response, and the synthesis.
pub proof fn law_everything_is_shown(result: ResultView, k: int)
    ensures
        0 <= k < result.audits.len() ==> occurs(
            report_text(result),
            "### "@ + result.audits[k].label + " → reviewed others\n"@ + came_to(
                result.audits[k],
                "❌ "@,
            ),
        ),
        0 <= k < result.responses.len() && result.synthesis is Some ==> occurs(
            report_text(result),
            "### "@ + result.responses[k].label + " *("@ + result.responses[k].elapsed_secs.tenths
                + "s)*\n"@ + came_to(result.responses[k], "❌ "@),
        ),
        0 <= k < result.responses.len() && result.synthesis is None ==> occurs(
            report_text(result),
            "## "@ + result.responses[k].label + "\n*("@ + result.responses[k].elapsed_secs.tenths
                + "s)*\n\n"@ + came_to(result.responses[k], "❌ Error: "@),
        ),
        result.synthesis matches Some(s) ==> occurs(
            report_text(result),
            "## ✅ Consensus Answer\n\n"@ + s.content,
        ),
{
    let text = report_text(result);
    let none = Seq::<char>::empty();
    let end = "</details>\n"@;
    lemma_sections(result.responses);
    lemma_sections(result.audits);
    let head = report_head(result);
    let answer = report_answer(result);
    let details = report_details(result);
    let audits = report_audits(result);
    if 0 <= k < result.audits.len() {
        let start =
            "\n<details><summary>🔍 Cross-Audit Feedback (click to expand)</summary>\n\n"@;
        let shown = glued(as_audits(result.audits));
        lemma_glued_parts_occur(as_audits(result.audits), k);
        lemma_occurs_within(head + answer + details + start, shown, end, as_audits(result.audits)[k]);
        assert(head + answer + details + start + shown + end == text);
    }
    if 0 <= k < result.responses.len() {
        if result.synthesis is Some {
            let start =
                "\n\n<details><summary>📋 Individual Responses (click to expand)</summary>\n\n"@;
            let shown = glued(as_details(result.responses));
            lemma_glued_parts_occur(as_details(result.responses), k);
            lemma_occurs_within(
                head + answer + start,
                shown,
                end + audits,
                as_details(result.responses)[k],
            );
            assert(head + answer + start + shown + (end + audits) == text);
        } else {
            let shown = glued(as_answers(result.responses));
            lemma_glued_parts_occur(as_answers(result.responses), k);
            lemma_occurs_within(head, shown, details + audits, as_answers(result.responses)[k]);
            assert(head + shown + (details + audits) == text);
        }
    }
    if result.synthesis is Some {
        lemma_occurs_between(head, answer, details + audits);
        assert(head + answer + (details + audits) == text);
    }
}

/// A ranking has every place once. Scores in it do not rise, and of equal ones the one that came
/// first stays first.
pub proof fn law_what_a_ranking_is(scores: Seq<ProviderScore>, order: Seq<usize>, i: usize)
    requires
        is_ranking(scores, order, scores.len() as int),
        i < scores.len(),
    ensures
        order.len() == scores.len(),
        exists|a: int| 0 <= a < order.len() && order[a] == i,
        forall|a: int, b: int|
            0 <= a < b < order.len() ==> {
                let high = place(scores[(#[trigger] order[a]) as int].score.bits);
                let low = place(scores[(#[trigger] order[b]) as int].score.bits);
                high > low || (high == low && order[a] < order[b])
            },
{
    lemma_ranking_is_complete(scores, order, scores.len() as int, i);
    let a = order.index_of(i);
    assert(order[a] == i);
    assert forall|a: int, b: int| 0 <= a < b < order.len() implies ({
        let high = place(scores[(#[trigger] order[a]) as int].score.bits);
        let low = place(scores[(#[trigger] order[b]) as int].score.bits);
        high > low || (high == low && order[a] < order[b])
    }) by {
        assert(shown_before(scores, order[a] as int, order[b] as int));
    }
}

/// A score of 80 or more is green, one of 50 or more yellow, and any other red.
pub proof fn law_colours_of_scores(bits: u64)
    requires
        !not_a_number(bits),
    ensures
        bits >= 0x8000_0000_0000_0000 ==> score_codes(bits) == "31"@,
        bits < 0x4049_0000_0000_0000 ==> score_codes(bits) == "31"@,
        0x4049_0000_0000_0000 <= bits < 0x4054_0000_0000_0000 ==> score_codes(bits) == "93"@,
        0x4054_0000_0000_0000 <= bits < 0x8000_0000_0000_0000 ==> score_codes(bits) == "92"@,
{
}

/// The rows of a scoreboard: one for each provider, in the order of a ranking.
pub open spec fn rows_in_order(
    scores: Seq<ProviderScore>,
    order: Seq<usize>,
    shown: Seq<Seq<char>>,
) -> Seq<Seq<char>> {
    Seq::new(
        order.len(),
        |a: int|
            {
                let s = scores[order[a] as int];
                "  "@ + padded_end(s.provider@, 20, ' ') + " "@ + padded_start(
                    shown[order[a] as int],
                    8,
                    ' ',
                ) + " "@ + padded_start(signed_decimal(s.total_debates as int), 6, ' ') + " "@
                    + padded_start(signed_decimal(s.times_best as int), 6, ' ') + " "@
                    + padded_start(signed_decimal(s.total_audit_issues_found as int), 6, ' ')
                    + " "@ + padded_start(
                    signed_decimal(s.total_audit_issues_received as int),
                    8,
                    ' ',
                ) + "\n"@
            },
    )
}

proof fn lemma_rows_in_order(
    scores: Seq<ProviderScore>,
    order: Seq<usize>,
    shown: Seq<Seq<char>>,
)
    ensures
        score_rows(scores, order, shown) == glued(rows_in_order(scores, order, shown)),
    decreases order.len(),
{
    if order.len() > 0 {
        lemma_rows_in_order(scores, order.drop_last(), shown);
        assert(rows_in_order(scores, order, shown).drop_last() =~= rows_in_order(
            scores,
            order.drop_last(),
            shown,
        ));
        assert(order.drop_last().push(order.last()) =~= order);
    }
}

/// A scoreboard has a heading, a row for each provider in the order of the ranking, and the formula
/// of the score. Every provider has its row.
pub proof fn law_what_a_scoreboard_shows(
    scores: Seq<ProviderScore>,
    order: Seq<usize>,
    paint: ScoreboardPaintView,
    i: usize,
)
    requires
        is_ranking(scores, order, scores.len() as int),
    ensures
        scoreboard_text(scores, order, paint) == scoreboard_head(paint) + glued(
            rows_in_order(scores, order, paint.scores),
        ) + "\n  Score formula: (best×3 + (debates-received)×2) / max(debates×5, 1) × 100\n"@
            + paint.bar + "\n"@,
        i < scores.len() ==> exists|a: int|
            0 <= a < order.len() && order[a] == i && occurs(
                scoreboard_text(scores, order, paint),
                #[trigger] rows_in_order(scores, order, paint.scores)[a],
            ),
{
    let rows = rows_in_order(scores, order, paint.scores);
    lemma_rows_in_order(scores, order, paint.scores);
    let end = "\n  Score formula: (best×3 + (debates-received)×2) / max(debates×5, 1) × 100\n"@
        + paint.bar + "\n"@;
    assert(scoreboard_text(scores, order, paint) =~= scoreboard_head(paint) + glued(rows) + end);
    if i < scores.len() {
        law_what_a_ranking_is(scores, order, i);
        let a = choose|a: int| 0 <= a < order.len() && order[a] == i;
        lemma_glued_parts_occur(rows, a);
        lemma_occurs_within(scoreboard_head(paint), glued(rows), end, rows[a]);
    }
}

/// The row of a debate shows when it was, its number and mode, up to 50 characters of its prompt,
/// how many took part, who merged the answers, and how long it took.
pub proof fn law_what_a_history_row_shows(
    s: DebateSummary,
    timestamp: Seq<char>,
    mode: Seq<char>,
) -> (preview: Seq<char>)
    ensures
        preview.is_prefix_of(s.prompt_preview@),
        preview.len() == if s.prompt_preview@.len() < 50 {
            s.prompt_preview@.len()
        } else {
            50
        },
        summary_row(s, timestamp, mode) == "  "@ + timestamp + " #"@ + padded_end(
            signed_decimal(s.id as int),
            4,
            ' ',
        ) + " "@ + mode + " | "@ + preview + " | "@ + decimal(s.num_providers as nat)
            + " providers | synth: "@ + (if s.synthesis_provider is Some {
            s.synthesis_provider->0@
        } else {
            "—"@
        }) + " | "@ + s.total_secs@.tenths + "s\n"@,
{
    first_chars(s.prompt_preview@, 50)
}

/// A history has a heading and a row for each debate, in the order in which they are given.
pub proof fn law_what_a_history_shows(summaries: Seq<DebateSummary>, paint: HistoryPaintView, i: int)
    ensures
        ({
            let rows = Seq::new(
                summaries.len(),
                |k: int| summary_row(summaries[k], paint.timestamps[k], paint.modes[k]),
            );
            &&& history_text(summaries, paint) == "\n"@ + paint.bar + "\n  📜 "@ + paint.title
                + "\n"@ + paint.bar + "\n\n"@ + glued(rows) + "\n"@ + paint.bar + "\n"@
            &&& 0 <= i < summaries.len() ==> occurs(history_text(summaries, paint), rows[i])
        }),
{
    let n = summaries.len() as int;
    let rows = Seq::new(
        summaries.len(),
        |k: int| summary_row(summaries[k], paint.timestamps[k], paint.modes[k]),
    );
    lemma_summary_rows(summaries, paint, n);
    assert(rows.take(n) =~= rows);
    let head = "\n"@ + paint.bar + "\n  📜 "@ + paint.title + "\n"@ + paint.bar + "\n\n"@;
    let end = "\n"@ + paint.bar + "\n"@;
    if 0 <= i < n {
        lemma_glued_parts_occur(rows, i);
        lemma_occurs_within(head, glued(rows), end, rows[i]);
        assert(head + glued(rows) + end == history_text(summaries, paint));
    }
}

proof fn lemma_summary_rows(
    summaries: Seq<DebateSummary>,
    paint: HistoryPaintView,
    count: int,
)
    requires
        0 <= count <= summaries.len(),
    ensures
        ({
            let rows = Seq::new(
                summaries.len(),
                |k: int| summary_row(summaries[k], paint.timestamps[k], paint.modes[k]),
            );
            summary_rows(summaries, paint, count) == glued(rows.take(count))
        }),
    decreases count,
{
    let rows = Seq::new(
        summaries.len(),
        |k: int| summary_row(summaries[k], paint.timestamps[k], paint.modes[k]),
    );
    if count > 0 {
        lemma_summary_rows(summaries, paint, count - 1);
        assert(rows.take(count).drop_last() =~= rows.take(count - 1));
        assert(rows.take(count).last() == rows[count - 1]);
    }
}

/// What is told of a response is its label and its error, or else its size in bytes and the time
/// that it took.
pub proof fn law_what_is_told_of_a_response(r: ResponseView, label: Seq<char>)
    ensures
        r.error matches Some(e) ==> progress_text(r, label) == "  "@ + label + ": ❌ "@ + e,
        r.error is None ==> progress_text(r, label) == "  "@ + label + ": ✅ "@ + decimal(
            vstd::utf8::encode_utf8(r.content).len(),
        ) + " chars ("@ + r.elapsed_secs.tenths + "s)"@,
{
}

/// The banners of a debate name it and count its providers, or the seconds that it took, between
/// two rules. The lines of its rounds say what is done.
pub proof fn law_what_is_told_of_a_debate(
    rule: Seq<char>,
    name: Seq<char>,
    n: nat,
    stream: bool,
)
    ensures
        opening_text(rule, name, n) == "\n"@ + rule + "\n  🎯 "@ + name + " — "@ + decimal(n)
            + " providers\n"@ + rule + "\n"@,
        closing_text(rule, name) == "\n"@ + rule + "\n  ⏱️  Total: "@ + name + "s\n"@ + rule + "\n"@,
        stream ==> responding_text(name, n, stream) == "📡 "@ + name + ": Dispatching to "@
            + decimal(n) + " providers in parallel"@ + " (streaming)"@ + "..."@,
        !stream ==> responding_text(name, n, stream) == "📡 "@ + name + ": Dispatching to "@
            + decimal(n) + " providers in parallel"@ + "..."@,
        auditing_text(name) == "\n🔍 "@ + name
            + ": Cross-audit (each model reviews the others)..."@,
        synthesising_text(name) == "\n🧠 "@ + name + ": Synthesis (merging all feedback)..."@,
        record_text(name) == "  🏆 Synthesis provider: "@ + name + " (highest historical score)"@,
        award_text(name) == "  🏆 Best initial response: "@ + name,
{
    reveal_strlit("");
    let start = "📡 "@ + name + ": Dispatching to "@ + decimal(n) + " providers in parallel"@;
    assert(start + ""@ =~= start);
}

} // verus!
