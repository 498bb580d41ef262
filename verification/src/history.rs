//! What the history keeps of debates, and how it scores the providers.

use crate::api::{ModelResponse, ResponseView};
use crate::debate::{response_views, DebateResult, ResultView};
use crate::number::{is_less, less, not_a_number, place, Real, RealView};
use crate::rounds::is_for_auditor;
use crate::sse::opt_text;
use crate::text::{
    all_white, chars_of, contains, first_chars, is_blank, law_trimming_takes_white_ends_only,
    law_what_occurs, lemma_picks_more, lines, occurs, picks, split_lines, starts_with, take_chars,
    texts, trim, trimmed, white,
};
use vstd::prelude::*;
use vstd::utf8::encode_utf8;

verus! {

/// Historical score of a provider.
#[derive(Clone, Debug)]
pub struct ProviderScore {
    pub provider: String,
    pub total_debates: i64,
    pub times_best: i64,
    pub total_audit_issues_found: i64,
    pub total_audit_issues_received: i64,
    pub score: Real,
}

/// Summary of a debate.
#[derive(Clone, Debug)]
pub struct DebateSummary {
    pub id: i64,
    pub timestamp: String,
    pub mode: String,
    pub prompt_preview: String,
    pub total_secs: Real,
    pub num_providers: usize,
    pub synthesis_provider: Option<String>,
}

// Scores.

/// The number behind the fraction bar of a score: five points for each debate.
pub open spec fn score_denominator(total_debates: int) -> int {
    if total_debates * 5 > 1 {
        total_debates * 5
    } else {
        1
    }
}

/// The number before the fraction bar of a score: three points for each time best, two for each
/// debate, and two off for each issue received. It can be negative.
pub open spec fn score_numerator(total_debates: int, times_best: int, received: int) -> int {
    times_best * 3 + (total_debates - received) * 2
}

/// The score of a provider as a fraction. A hundred times its value is the score that is shown.
pub fn score_ratio(total_debates: i64, times_best: i64, received: i64) -> (ratio: (i128, i128))
    ensures
        ratio.0 == score_numerator(total_debates as int, times_best as int, received as int),
        ratio.1 == score_denominator(total_debates as int),
{
    let debates: i128 = total_debates as i128;
    let clean: i128 = debates - received as i128;
    let denominator: i128 = if debates * 5 > 1 {
        debates * 5
    } else {
        1
    };
    (times_best as i128 * 3 + clean * 2, denominator)
}

/// The score of a provider that was best at most once in each debate is at most a hundred.
pub proof fn law_score_is_at_most_full(total_debates: int, times_best: int, received: int)
    requires
        0 <= times_best <= total_debates,
        0 <= received,
    ensures
        score_numerator(total_debates, times_best, received) <= score_denominator(total_debates),
        score_denominator(total_debates) >= 1,
{
}

/// An award raises a score, and an issue received lowers it.
pub proof fn law_awards_raise_and_issues_lower(total_debates: int, times_best: int, received: int)
    ensures
        score_numerator(total_debates, times_best, received) < score_numerator(
            total_debates,
            times_best + 1,
            received,
        ),
        score_numerator(total_debates, times_best, received + 1) < score_numerator(
            total_debates,
            times_best,
            received,
        ),
{
}

/// The place of the best score among the first `count`: each is held against the best so far, and
/// takes over unless it is less.
pub open spec fn best_place(scores: Seq<ProviderScore>, count: int) -> int
    decreases count,
{
    if count <= 1 {
        0
    } else {
        let so_far = best_place(scores, count - 1);
        if less(scores[count - 1].score.bits, scores[so_far].score.bits) {
            so_far
        } else {
            count - 1
        }
    }
}

/// The provider with the highest score, where there is any.
pub fn get_best_provider(scores: &[ProviderScore]) -> (best: Option<String>)
    ensures
        opt_text(best) == if scores@.len() == 0 {
            None
        } else {
            Some(scores@[best_place(scores@, scores@.len() as int)].provider@)
        },
{
    if scores.len() == 0 {
        return None;
    }
    let mut best: usize = 0;
    let mut i: usize = 1;
    while i < scores.len()
        invariant
            1 <= i <= scores.len(),
            best < i,
            best == best_place(scores@, i as int),
        decreases scores.len() - i,
    {
        if !is_less(scores[i].score.bits, scores[best].score.bits) {
            best = i;
        }
        i = i + 1;
    }
    Some(scores[best].provider.clone())
}

/// Where all scores are numbers, none is higher than that of the best provider, and all behind it
/// are lower.
pub proof fn law_best_provider_is_the_last_maximum(scores: Seq<ProviderScore>, count: int)
    requires
        1 <= count <= scores.len(),
        forall|i: int| 0 <= i < count ==> !not_a_number((#[trigger] scores[i]).score.bits),
    ensures
        0 <= best_place(scores, count) < count,
        forall|i: int|
            0 <= i < count ==> place((#[trigger] scores[i]).score.bits) <= place(
                scores[best_place(scores, count)].score.bits,
            ),
        forall|i: int|
            best_place(scores, count) < i < count ==> place((#[trigger] scores[i]).score.bits)
                < place(scores[best_place(scores, count)].score.bits),
    decreases count,
{
    if count > 1 {
        law_best_provider_is_the_last_maximum(scores, count - 1);
        assert(!not_a_number(scores[count - 1].score.bits));
        assert(!not_a_number(scores[best_place(scores, count - 1)].score.bits));
    }
}

// Issues that audits name.

/// What the standard library's `str::to_lowercase` makes of a text.
pub uninterp spec fn lowercase(s: Seq<char>) -> Seq<char>;

/// `str::to_lowercase` of the standard library: the text with every character in lower case.
pub assume_specification[ str::to_lowercase ](text: &str) -> (lower: String)
    ensures
        lower@ == lowercase(text@),
;

/// Whether one of the patterns occurs in `s`.
pub open spec fn mentions(s: Seq<char>, patterns: Seq<&str>) -> bool {
    exists|i: int| 0 <= i < patterns.len() && occurs(s, (#[trigger] patterns[i])@)
}

/// Whether a line is a heading, a numbered item or a bullet.
pub open spec fn is_item(line: Seq<char>) -> bool {
    ||| "## "@.is_prefix_of(line)
    ||| "### "@.is_prefix_of(line)
    ||| line.len() > 0 && '0' <= line[0] <= '9' && line.contains('.')
    ||| "- "@.is_prefix_of(line)
    ||| "* "@.is_prefix_of(line)
}

/// The number of items among the lines that mention a pattern.
pub open spec fn item_count(list: Seq<Seq<char>>, patterns: Seq<&str>) -> nat
    decreases list.len(),
{
    if list.len() == 0 {
        0
    } else {
        let line = trimmed(list.last());
        item_count(list.drop_last(), patterns) + if is_item(line) && mentions(line, patterns) {
            1nat
        } else {
            0nat
        }
    }
}

/// The number of issues that a text names, given the text in lower case: the items that mention a
/// pattern. Where there are none, a text that is not blank and mentions a pattern counts as one.
pub open spec fn issue_count(
    text: Seq<char>,
    lower: Seq<char>,
    patterns: Seq<&str>,
) -> nat {
    let items = item_count(lines(lower), patterns);
    if items == 0 && trimmed(text).len() > 0 && mentions(lower, patterns) {
        1
    } else {
        items
    }
}

fn has_pattern(text: &str, patterns: &[&str]) -> (yes: bool)
    ensures
        yes == mentions(text@, patterns@),
{
    let mut i: usize = 0;
    while i < patterns.len()
        invariant
            i <= patterns.len(),
            forall|k: int| 0 <= k < i ==> !occurs(text@, (#[trigger] patterns@[k])@),
        decreases patterns.len() - i,
    {
        if contains(text, patterns[i]) {
            assert(occurs(text@, patterns@[i as int]@));
            return true;
        }
        i = i + 1;
    }
    false
}

fn looks_like_item(line: &str) -> (yes: bool)
    ensures
        yes == is_item(line@),
{
    if starts_with(line, "## ") || starts_with(line, "### ") || starts_with(line, "- ")
        || starts_with(line, "* ") {
        return true;
    }
    let chars = chars_of(line);
    if chars.len() == 0 || !('0' <= chars[0] && chars[0] <= '9') {
        return false;
    }
    let mut i: usize = 0;
    while i < chars.len()
        invariant
            i <= chars.len(),
            chars@ == line@,
            line@.len() > 0 && '0' <= line@[0] <= '9',
            forall|k: int| 0 <= k < i ==> chars@[k] != '.',
        decreases chars.len() - i,
    {
        if chars[i] == '.' {
            return true;
        }
        i = i + 1;
    }
    false
}

/// Counts the issues that a text names, given the text in lower case.
pub fn count_lowered(text: &str, lower: &str, patterns: &[&str]) -> (count: usize)
    ensures
        count == issue_count(text@, lower@, patterns@),
{
    let list = split_lines(lower);
    let ghost all = lines(lower@);
    let mut count: usize = 0;
    let mut i: usize = 0;
    assert(all.take(0).len() == 0);
    while i < list.len()
        invariant
            i <= list.len(),
            count <= i,
            texts(list@) == all,
            count == item_count(all.take(i as int), patterns@),
        decreases list.len() - i,
    {
        proof {
            assert(all.take(i + 1).drop_last() == all.take(i as int));
            assert(all.take(i + 1).last() == list@[i as int]@);
        }
        let line = trim(list[i].as_str());
        if looks_like_item(line.as_str()) && has_pattern(line.as_str(), patterns) {
            count = count + 1;
        }
        i = i + 1;
    }
    assert(all.take(i as int) == all);
    if count == 0 && !is_blank(text) && has_pattern(lower, patterns) {
        1
    } else {
        count
    }
}

/// Counts the issues that a text names, whatever the case of its letters.
pub fn count_issues(text: &str, patterns: &[&str]) -> (count: usize)
    ensures
        count == issue_count(text@, lowercase(text@), patterns@),
{
    let lower = text.to_lowercase();
    count_lowered(text, lower.as_str(), patterns)
}

/// The words by which an audit names an issue.
pub const ISSUE_PATTERNS: [&'static str; 13] = [
    "issue",
    "error",
    "flaw",
    "problem",
    "incorrect",
    "critical",
    "high risk",
    "missing",
    "wrong",
    "bug",
    "vulnerability",
    "concern",
    "weakness",
];

/// The number of issues that an audit names.
pub open spec fn audit_issues(content: Seq<char>) -> nat {
    issue_count(content, lowercase(content), ISSUE_PATTERNS@)
}

// What is written when a debate is logged.

/// One change to the history. The changes of a debate are made in order.
#[derive(Debug)]
pub enum Change {
    /// Add the debate itself. The number that it gets belongs to the rows that follow.
    Debate {
        timestamp: String,
        mode: String,
        prompt_preview: String,
        total_secs: Real,
        num_providers: i64,
        synthesis_provider: Option<String>,
    },
    /// Add a response of the debate.
    Response {
        provider: String,
        model: String,
        content_chars: i64,
        elapsed_secs: Real,
        error: Option<String>,
        tokens_prompt: Option<i64>,
        tokens_completion: Option<i64>,
        tokens_total: Option<i64>,
    },
    /// Add the number of issues that an auditor named in the response of a target.
    Finding { auditor: String, target: String, issues_found: i64 },
    /// Add to the counts of a provider, which start at zero.
    Credit { provider: String, counts: Counts, last_updated: String },
}

/// Counts of a provider.
#[derive(Clone, Copy, PartialEq, Eq, Structural, Debug)]
pub struct Counts {
    pub debates: i64,
    pub best: i64,
    pub found: i64,
    pub received: i64,
}

/// A change as a mathematical value.
pub enum ChangeView {
    Debate {
        timestamp: Seq<char>,
        mode: Seq<char>,
        prompt_preview: Seq<char>,
        total_secs: RealView,
        num_providers: i64,
        synthesis_provider: Option<Seq<char>>,
    },
    Response {
        provider: Seq<char>,
        model: Seq<char>,
        content_chars: i64,
        elapsed_secs: RealView,
        error: Option<Seq<char>>,
        tokens_prompt: Option<i64>,
        tokens_completion: Option<i64>,
        tokens_total: Option<i64>,
    },
    Finding { auditor: Seq<char>, target: Seq<char>, issues_found: i64 },
    Credit { provider: Seq<char>, counts: Counts, last_updated: Seq<char> },
}

impl View for Change {
    type V = ChangeView;

    open spec fn view(&self) -> ChangeView {
        match *self {
            Change::Debate {
                timestamp,
                mode,
                prompt_preview,
                total_secs,
                num_providers,
                synthesis_provider,
            } => ChangeView::Debate {
                timestamp: timestamp@,
                mode: mode@,
                prompt_preview: prompt_preview@,
                total_secs: total_secs@,
                num_providers,
                synthesis_provider: opt_text(synthesis_provider),
            },
            Change::Response {
                provider,
                model,
                content_chars,
                elapsed_secs,
                error,
                tokens_prompt,
                tokens_completion,
                tokens_total,
            } => ChangeView::Response {
                provider: provider@,
                model: model@,
                content_chars,
                elapsed_secs: elapsed_secs@,
                error: opt_text(error),
                tokens_prompt,
                tokens_completion,
                tokens_total,
            },
            Change::Finding { auditor, target, issues_found } => ChangeView::Finding {
                auditor: auditor@,
                target: target@,
                issues_found,
            },
            Change::Credit { provider, counts, last_updated } => ChangeView::Credit {
                provider: provider@,
                counts,
                last_updated: last_updated@,
            },
        }
    }
}

/// The changes of a list as mathematical values.
pub open spec fn change_views(list: Seq<Change>) -> Seq<ChangeView> {
    list.map_values(|c: Change| c@)
}

/// The row of a debate. Of the prompt it keeps the first 200 characters.
pub open spec fn debate_row(
    result: ResultView,
    prompt: Seq<char>,
    timestamp: Seq<char>,
) -> ChangeView {
    ChangeView::Debate {
        timestamp,
        mode: result.mode,
        prompt_preview: first_chars(prompt, 200),
        total_secs: result.total_secs,
        num_providers: result.responses.len() as i64,
        synthesis_provider: match result.synthesis {
            Some(s) => Some(s.provider),
            None => None,
        },
    }
}

/// The row of a response. Its size is that of its text in UTF-8.
pub open spec fn response_row(r: ResponseView) -> ChangeView {
    ChangeView::Response {
        provider: r.provider,
        model: r.model,
        content_chars: encode_utf8(r.content).len() as i64,
        elapsed_secs: r.elapsed_secs,
        error: r.error,
        tokens_prompt: match r.tokens_used {
            Some(t) => Some(t.prompt_tokens as i64),
            None => None,
        },
        tokens_completion: match r.tokens_used {
            Some(t) => Some(t.completion_tokens as i64),
            None => None,
        },
        tokens_total: match r.tokens_used {
            Some(t) => Some(t.total_tokens as i64),
            None => None,
        },
    }
}

/// The rows of responses.
pub open spec fn response_rows(responses: Seq<ResponseView>) -> Seq<ChangeView> {
    responses.map_values(|r: ResponseView| response_row(r))
}

/// What is written for an audit and one of its targets: the finding, and the issues on the
/// accounts of both.
pub open spec fn finding_rows(
    auditor: Seq<char>,
    target: Seq<char>,
    issues: i64,
    timestamp: Seq<char>,
) -> Seq<ChangeView> {
    seq![
        ChangeView::Finding { auditor, target, issues_found: issues },
        ChangeView::Credit {
            provider: auditor,
            counts: Counts { debates: 0, best: 0, found: issues, received: 0 },
            last_updated: timestamp,
        },
        ChangeView::Credit {
            provider: target,
            counts: Counts { debates: 0, best: 0, found: 0, received: issues },
            last_updated: timestamp,
        },
    ]
}

/// What is written for an audit: it is about all responses without error that are not its author's.
pub open spec fn target_rows(
    auditor: Seq<char>,
    issues: i64,
    responses: Seq<ResponseView>,
    timestamp: Seq<char>,
) -> Seq<ChangeView>
    decreases responses.len(),
{
    if responses.len() == 0 {
        Seq::empty()
    } else {
        let before = target_rows(auditor, issues, responses.drop_last(), timestamp);
        let r = responses.last();
        if r.error is None && r.provider != auditor {
            before + finding_rows(auditor, r.provider, issues, timestamp)
        } else {
            before
        }
    }
}

/// What is written for audits. One with an error counts for nothing.
pub open spec fn audit_rows(
    audits: Seq<ResponseView>,
    responses: Seq<ResponseView>,
    timestamp: Seq<char>,
) -> Seq<ChangeView>
    decreases audits.len(),
{
    if audits.len() == 0 {
        Seq::empty()
    } else {
        let before = audit_rows(audits.drop_last(), responses, timestamp);
        let a = audits.last();
        if a.error is None {
            before + target_rows(
                a.provider,
                audit_issues(a.content) as i64,
                responses,
                timestamp,
            )
        } else {
            before
        }
    }
}

/// What is written for taking part: a debate on the account of each response's provider.
pub open spec fn part_row(provider: Seq<char>, timestamp: Seq<char>) -> ChangeView {
    ChangeView::Credit {
        provider,
        counts: Counts { debates: 1, best: 0, found: 0, received: 0 },
        last_updated: timestamp,
    }
}

/// What is written for taking part.
pub open spec fn part_rows(
    responses: Seq<ResponseView>,
    timestamp: Seq<char>,
) -> Seq<ChangeView> {
    responses.map_values(|r: ResponseView| part_row(r.provider, timestamp))
}

/// What is written for an award.
pub open spec fn award_rows(best: Option<Seq<char>>, timestamp: Seq<char>) -> Seq<ChangeView> {
    match best {
        Some(name) => seq![
            ChangeView::Credit {
                provider: name,
                counts: Counts { debates: 0, best: 1, found: 0, received: 0 },
                last_updated: timestamp,
            },
        ],
        None => Seq::empty(),
    }
}

/// All that is written for a debate, in order.
pub open spec fn debate_log(
    result: ResultView,
    prompt: Seq<char>,
    best: Option<Seq<char>>,
    timestamp: Seq<char>,
) -> Seq<ChangeView> {
    seq![debate_row(result, prompt, timestamp)] + response_rows(result.responses) + audit_rows(
        result.audits,
        result.responses,
        timestamp,
    ) + part_rows(result.responses, timestamp) + award_rows(best, timestamp)
}

fn log_response(r: &ModelResponse) -> (change: Change)
    ensures
        change@ == response_row(r@),
{
    let size: usize = r.content.as_str().as_bytes().len();
    let (prompt, completion, total) = match &r.tokens_used {
        Some(t) => (
            Some(t.prompt_tokens as i64),
            Some(t.completion_tokens as i64),
            Some(t.total_tokens as i64),
        ),
        None => (None, None, None),
    };
    Change::Response {
        provider: r.provider.clone(),
        model: r.model.clone(),
        content_chars: size as i64,
        elapsed_secs: r.elapsed_secs.copy(),
        error: r.error.clone(),
        tokens_prompt: prompt,
        tokens_completion: completion,
        tokens_total: total,
    }
}

fn credit(provider: &str, counts: Counts, timestamp: &str) -> (change: Change)
    ensures
        change@ == (ChangeView::Credit {
            provider: provider@,
            counts,
            last_updated: timestamp@,
        }),
{
    Change::Credit {
        provider: provider.to_owned(),
        counts,
        last_updated: timestamp.to_owned(),
    }
}

/// Writes down an audit with a number of issues: a finding for each of its targets.
pub fn log_targets(
    changes: &mut Vec<Change>,
    auditor: &String,
    issues: i64,
    responses: &Vec<ModelResponse>,
    timestamp: &str,
)
    ensures
        change_views(final(changes)@) == change_views(old(changes)@) + target_rows(
            auditor@,
            issues,
            response_views(responses@),
            timestamp@,
        ),
{
    let ghost views = response_views(responses@);
    let ghost start = change_views(changes@);
    let mut i: usize = 0;
    assert(views.take(0).len() == 0);
    assert(start + Seq::<ChangeView>::empty() == start);
    while i < responses.len()
        invariant
            i <= responses.len(),
            views == response_views(responses@),
            change_views(changes@) == start + target_rows(
                auditor@,
                issues,
                views.take(i as int),
                timestamp@,
            ),
        decreases responses.len() - i,
    {
        let r = &responses[i];
        let ghost before = change_views(changes@);
        let ghost rows = target_rows(auditor@, issues, views.take(i as int), timestamp@);
        proof {
            assert(views.take(i + 1).drop_last() == views.take(i as int));
            assert(views.take(i + 1).last() == r@);
        }
        if r.error.is_none() && r.provider != *auditor {
            changes.push(
                Change::Finding {
                    auditor: auditor.clone(),
                    target: r.provider.clone(),
                    issues_found: issues,
                },
            );
            changes.push(
                credit(
                    auditor.as_str(),
                    Counts { debates: 0, best: 0, found: issues, received: 0 },
                    timestamp,
                ),
            );
            changes.push(
                credit(
                    r.provider.as_str(),
                    Counts { debates: 0, best: 0, found: 0, received: issues },
                    timestamp,
                ),
            );
            assert(change_views(changes@) == before + finding_rows(
                auditor@,
                r.provider@,
                issues,
                timestamp@,
            ));
            assert((start + rows) + finding_rows(auditor@, r.provider@, issues, timestamp@)
                == start + (rows + finding_rows(auditor@, r.provider@, issues, timestamp@)));
        }
        i = i + 1;
    }
    assert(views.take(i as int) == views);
}

fn log_audits(
    changes: &mut Vec<Change>,
    audits: &Vec<ModelResponse>,
    responses: &Vec<ModelResponse>,
    timestamp: &str,
)
    ensures
        change_views(final(changes)@) == change_views(old(changes)@) + audit_rows(
            response_views(audits@),
            response_views(responses@),
            timestamp@,
        ),
{
    let ghost views = response_views(audits@);
    let ghost answers = response_views(responses@);
    let ghost start = change_views(changes@);
    let mut i: usize = 0;
    assert(views.take(0).len() == 0);
    assert(start + Seq::<ChangeView>::empty() == start);
    while i < audits.len()
        invariant
            i <= audits.len(),
            views == response_views(audits@),
            answers == response_views(responses@),
            change_views(changes@) == start + audit_rows(views.take(i as int), answers, timestamp@),
        decreases audits.len() - i,
    {
        let a = &audits[i];
        let ghost rows = audit_rows(views.take(i as int), answers, timestamp@);
        proof {
            assert(views.take(i + 1).drop_last() == views.take(i as int));
            assert(views.take(i + 1).last() == a@);
        }
        if a.error.is_none() {
            let patterns: [&str; 13] = ISSUE_PATTERNS;
            let issues: usize = count_issues(a.content.as_str(), &patterns);
            log_targets(changes, &a.provider, issues as i64, responses, timestamp);
            proof {
                let more = target_rows(a.provider@, issues as i64, answers, timestamp@);
                assert((start + rows) + more == start + (rows + more));
            }
        }
        i = i + 1;
    }
    assert(views.take(i as int) == views);
}

/// All that is to be written for a debate, in order. The award goes to `best`.
pub fn log_debate(
    result: &DebateResult,
    prompt: &str,
    best: Option<&str>,
    timestamp: &str,
) -> (changes: Vec<Change>)
    ensures
        change_views(changes@) == debate_log(
            result@,
            prompt@,
            match best {
                Some(name) => Some(name@),
                None => None,
            },
            timestamp@,
        ),
{
    let ghost view = result@;
    let synthesis_provider: Option<String> = match &result.synthesis {
        Some(s) => Some(s.provider.clone()),
        None => None,
    };
    let mut changes: Vec<Change> = Vec::new();
    changes.push(
        Change::Debate {
            timestamp: timestamp.to_owned(),
            mode: result.mode.clone(),
            prompt_preview: take_chars(prompt, 200),
            total_secs: result.total_secs.copy(),
            num_providers: result.responses.len() as i64,
            synthesis_provider,
        },
    );
    let ghost first = seq![debate_row(view, prompt@, timestamp@)];
    assert(change_views(changes@) == first);
    let mut i: usize = 0;
    assert(first + response_rows(view.responses).take(0) == first);
    while i < result.responses.len()
        invariant
            i <= result.responses.len(),
            view == result@,
            change_views(changes@) == first + response_rows(view.responses).take(i as int),
        decreases result.responses.len() - i,
    {
        let ghost before = change_views(changes@);
        let row = log_response(&result.responses[i]);
        changes.push(row);
        assert(change_views(changes@) == before.push(row@));
        i = i + 1;
        assert(response_rows(view.responses).take(i as int) == response_rows(view.responses).take(
            i - 1,
        ).push(row@));
        assert(first + response_rows(view.responses).take(i - 1).push(row@) == before.push(row@));
    }
    let ghost second = first + response_rows(view.responses);
    assert(response_rows(view.responses).take(i as int) == response_rows(view.responses));
    log_audits(&mut changes, &result.audits, &result.responses, timestamp);
    let ghost third = second + audit_rows(view.audits, view.responses, timestamp@);
    assert(change_views(changes@) == third);
    let ghost parts = part_rows(view.responses, timestamp@);
    let mut k: usize = 0;
    assert(third + parts.take(0) == third);
    while k < result.responses.len()
        invariant
            k <= result.responses.len(),
            view == result@,
            parts == part_rows(view.responses, timestamp@),
            change_views(changes@) == third + parts.take(k as int),
        decreases result.responses.len() - k,
    {
        let ghost before = change_views(changes@);
        let row = credit(
            result.responses[k].provider.as_str(),
            Counts { debates: 1, best: 0, found: 0, received: 0 },
            timestamp,
        );
        changes.push(row);
        assert(change_views(changes@) == before.push(row@));
        assert(row@ == parts[k as int]);
        k = k + 1;
        assert(parts.take(k as int) == parts.take(k - 1).push(row@));
        assert(third + parts.take(k - 1).push(row@) == before.push(row@));
    }
    assert(parts.take(k as int) == parts);
    let ghost fourth = third + parts;
    match best {
        Some(name) => {
            let row = credit(
                name,
                Counts { debates: 0, best: 1, found: 0, received: 0 },
                timestamp,
            );
            changes.push(row);
            assert(change_views(changes@) == fourth + award_rows(Some(name@), timestamp@));
        },
        None => {
            assert(fourth + award_rows(None, timestamp@) == fourth);
        },
    }
    changes
}

/// Which debates of the history are shown, the latest first.
#[derive(Debug)]
pub enum HistoryQuery {
    /// The latest ones.
    Latest { limit: i64 },
    /// The latest ones with a response of a provider.
    OfProvider { provider: String, limit: i64 },
}

/// Which debates of the history to show. A limit beyond 63 bits is no limit: it turns negative.
pub fn history_query(limit: usize, provider: Option<&str>) -> (query: HistoryQuery)
    ensures
        match provider {
            Some(p) => query matches HistoryQuery::OfProvider { provider: q, limit: n } && q@ == p@
                && n == limit as i64,
            None => query == (HistoryQuery::Latest { limit: limit as i64 }),
        },
{
    match provider {
        Some(p) => HistoryQuery::OfProvider { provider: p.to_owned(), limit: limit as i64 },
        None => HistoryQuery::Latest { limit: limit as i64 },
    }
}

// What the log of a debate adds up to.

/// Any provider.
pub open spec fn anyone() -> spec_fn(Seq<char>) -> bool {
    |name: Seq<char>| true
}

/// The provider with a name.
pub open spec fn only(provider: Seq<char>) -> spec_fn(Seq<char>) -> bool {
    |name: Seq<char>| name == provider
}

/// The count of debates.
pub open spec fn debates() -> spec_fn(Counts) -> int {
    |c: Counts| c.debates as int
}

/// The count of awards.
pub open spec fn awards() -> spec_fn(Counts) -> int {
    |c: Counts| c.best as int
}

/// The count of issues found.
pub open spec fn found() -> spec_fn(Counts) -> int {
    |c: Counts| c.found as int
}

/// The count of issues received.
pub open spec fn received() -> spec_fn(Counts) -> int {
    |c: Counts| c.received as int
}

/// A count of a change, where the change is a credit to a provider that `whose` names.
pub open spec fn amount(
    change: ChangeView,
    whose: spec_fn(Seq<char>) -> bool,
    pick: spec_fn(Counts) -> int,
) -> int {
    match change {
        ChangeView::Credit { provider, counts, .. } => if whose(provider) {
            pick(counts)
        } else {
            0
        },
        _ => 0,
    }
}

/// The sum of a count over the credits to the providers that `whose` names.
pub open spec fn credited(
    changes: Seq<ChangeView>,
    whose: spec_fn(Seq<char>) -> bool,
    pick: spec_fn(Counts) -> int,
) -> int
    decreases changes.len(),
{
    if changes.len() == 0 {
        0
    } else {
        credited(changes.drop_last(), whose, pick) + amount(changes.last(), whose, pick)
    }
}

proof fn lemma_credited_append(
    a: Seq<ChangeView>,
    b: Seq<ChangeView>,
    whose: spec_fn(Seq<char>) -> bool,
    pick: spec_fn(Counts) -> int,
)
    ensures
        credited(a + b, whose, pick) == credited(a, whose, pick) + credited(b, whose, pick),
    decreases b.len(),
{
    if b.len() == 0 {
        assert(a + b == a);
    } else {
        assert((a + b).drop_last() == a + b.drop_last());
        lemma_credited_append(a, b.drop_last(), whose, pick);
    }
}

proof fn lemma_finding_credits(
    auditor: Seq<char>,
    target: Seq<char>,
    issues: i64,
    timestamp: Seq<char>,
    whose: spec_fn(Seq<char>) -> bool,
    pick: spec_fn(Counts) -> int,
)
    ensures
        credited(finding_rows(auditor, target, issues, timestamp), whose, pick) == (if whose(
            auditor,
        ) {
            pick(Counts { debates: 0, best: 0, found: issues, received: 0 })
        } else {
            0
        }) + (if whose(target) {
            pick(Counts { debates: 0, best: 0, found: 0, received: issues })
        } else {
            0
        }),
{
    let rows = finding_rows(auditor, target, issues, timestamp);
    reveal_with_fuel(credited, 4);
    assert(rows.drop_last().drop_last() == seq![rows[0]]);
    assert(rows.drop_last().drop_last().drop_last() == Seq::<ChangeView>::empty());
    assert(rows.drop_last().last() == rows[1]);
}

/// What the credits of a debate's log add up to, where the credits of a finding add up to nothing.
proof fn lemma_audits_add_nothing(
    audits: Seq<ResponseView>,
    responses: Seq<ResponseView>,
    timestamp: Seq<char>,
    whose: spec_fn(Seq<char>) -> bool,
    pick: spec_fn(Counts) -> int,
)
    requires
        forall|auditor: Seq<char>, target: Seq<char>, issues: i64|
            credited(#[trigger] finding_rows(auditor, target, issues, timestamp), whose, pick) == 0,
    ensures
        credited(audit_rows(audits, responses, timestamp), whose, pick) == 0,
    decreases audits.len(),
{
    if audits.len() > 0 {
        let a = audits.last();
        lemma_audits_add_nothing(audits.drop_last(), responses, timestamp, whose, pick);
        let issues = audit_issues(a.content) as i64;
        lemma_targets_add_nothing(a.provider, issues, responses, timestamp, whose, pick);
        lemma_credited_append(
            audit_rows(audits.drop_last(), responses, timestamp),
            target_rows(a.provider, issues, responses, timestamp),
            whose,
            pick,
        );
    }
}

proof fn lemma_targets_add_nothing(
    auditor: Seq<char>,
    issues: i64,
    responses: Seq<ResponseView>,
    timestamp: Seq<char>,
    whose: spec_fn(Seq<char>) -> bool,
    pick: spec_fn(Counts) -> int,
)
    requires
        forall|a: Seq<char>, target: Seq<char>, n: i64|
            credited(#[trigger] finding_rows(a, target, n, timestamp), whose, pick) == 0,
    ensures
        credited(target_rows(auditor, issues, responses, timestamp), whose, pick) == 0,
    decreases responses.len(),
{
    if responses.len() > 0 {
        let r = responses.last();
        let rest = responses.drop_last();
        lemma_targets_add_nothing(auditor, issues, rest, timestamp, whose, pick);
        lemma_credited_append(
            target_rows(auditor, issues, rest, timestamp),
            finding_rows(auditor, r.provider, issues, timestamp),
            whose,
            pick,
        );
    }
}

proof fn lemma_responses_add_nothing(
    responses: Seq<ResponseView>,
    whose: spec_fn(Seq<char>) -> bool,
    pick: spec_fn(Counts) -> int,
)
    ensures
        credited(response_rows(responses), whose, pick) == 0,
    decreases responses.len(),
{
    if responses.len() > 0 {
        assert(response_rows(responses).drop_last() == response_rows(responses.drop_last()));
        assert(response_rows(responses).last() == response_row(responses.last()));
        lemma_responses_add_nothing(responses.drop_last(), whose, pick);
    }
}

/// The credits of a log are those of its audits, of taking part and of the award.
proof fn lemma_log_credits(
    result: ResultView,
    prompt: Seq<char>,
    best: Option<Seq<char>>,
    timestamp: Seq<char>,
    whose: spec_fn(Seq<char>) -> bool,
    pick: spec_fn(Counts) -> int,
)
    ensures
        credited(debate_log(result, prompt, best, timestamp), whose, pick) == credited(
            audit_rows(result.audits, result.responses, timestamp),
            whose,
            pick,
        ) + credited(part_rows(result.responses, timestamp), whose, pick) + credited(
            award_rows(best, timestamp),
            whose,
            pick,
        ),
{
    let first = seq![debate_row(result, prompt, timestamp)];
    let second = response_rows(result.responses);
    let third = audit_rows(result.audits, result.responses, timestamp);
    let fourth = part_rows(result.responses, timestamp);
    let fifth = award_rows(best, timestamp);
    assert(first.drop_last() == Seq::<ChangeView>::empty());
    assert(first.last() == debate_row(result, prompt, timestamp));
    reveal_with_fuel(credited, 2);
    lemma_responses_add_nothing(result.responses, whose, pick);
    lemma_credited_append(first, second, whose, pick);
    lemma_credited_append(first + second, third, whose, pick);
    lemma_credited_append(first + second + third, fourth, whose, pick);
    lemma_credited_append(first + second + third + fourth, fifth, whose, pick);
}

proof fn lemma_award_credits(
    best: Option<Seq<char>>,
    timestamp: Seq<char>,
    whose: spec_fn(Seq<char>) -> bool,
    pick: spec_fn(Counts) -> int,
)
    ensures
        credited(award_rows(best, timestamp), whose, pick) == match best {
            Some(name) => if whose(name) {
                pick(Counts { debates: 0, best: 1, found: 0, received: 0 })
            } else {
                0
            },
            None => 0,
        },
{
    reveal_with_fuel(credited, 2);
    match best {
        Some(name) => {
            let rows = award_rows(best, timestamp);
            assert(rows.drop_last() == Seq::<ChangeView>::empty());
        },
        None => {},
    }
}

/// The number of responses of the providers that `whose` names.
pub open spec fn parts_taken(
    responses: Seq<ResponseView>,
    whose: spec_fn(Seq<char>) -> bool,
) -> int
    decreases responses.len(),
{
    if responses.len() == 0 {
        0
    } else {
        parts_taken(responses.drop_last(), whose) + if whose(responses.last().provider) {
            1int
        } else {
            0int
        }
    }
}

proof fn lemma_part_credits(
    responses: Seq<ResponseView>,
    timestamp: Seq<char>,
    whose: spec_fn(Seq<char>) -> bool,
    pick: spec_fn(Counts) -> int,
)
    ensures
        credited(part_rows(responses, timestamp), whose, pick) == parts_taken(responses, whose)
            * pick(Counts { debates: 1, best: 0, found: 0, received: 0 }),
    decreases responses.len(),
{
    let one = pick(Counts { debates: 1, best: 0, found: 0, received: 0 });
    if responses.len() > 0 {
        let rest = responses.drop_last();
        assert(part_rows(responses, timestamp).drop_last() == part_rows(rest, timestamp));
        assert(part_rows(responses, timestamp).last() == part_row(
            responses.last().provider,
            timestamp,
        ));
        lemma_part_credits(rest, timestamp, whose, pick);
        let n = parts_taken(rest, whose);
        assert((n + 1) * one == n * one + one) by (nonlinear_arith);
    } else {
        assert(0 * one == 0) by (nonlinear_arith);
    }
}

/// The issues that auditors found and the issues that their targets received are the same in
/// number.
pub proof fn law_issues_balance(
    result: ResultView,
    prompt: Seq<char>,
    best: Option<Seq<char>>,
    timestamp: Seq<char>,
)
    ensures
        credited(
            debate_log(result, prompt, best, timestamp),
            anyone(),
            found(),
        ) == credited(
            debate_log(result, prompt, best, timestamp),
            anyone(),
            received(),
        ),
{
    lemma_log_credits(result, prompt, best, timestamp, anyone(), found());
    lemma_log_credits(result, prompt, best, timestamp, anyone(), received());
    lemma_part_credits(result.responses, timestamp, anyone(), found());
    lemma_part_credits(result.responses, timestamp, anyone(), received());
    lemma_award_credits(best, timestamp, anyone(), found());
    lemma_award_credits(best, timestamp, anyone(), received());
    lemma_audits_balance(result.audits, result.responses, timestamp);
    let n = parts_taken(result.responses, anyone());
    assert(n * 0 == 0) by (nonlinear_arith);
}

proof fn lemma_audits_balance(
    audits: Seq<ResponseView>,
    responses: Seq<ResponseView>,
    timestamp: Seq<char>,
)
    ensures
        credited(
            audit_rows(audits, responses, timestamp),
            anyone(),
            found(),
        ) == credited(
            audit_rows(audits, responses, timestamp),
            anyone(),
            received(),
        ),
    decreases audits.len(),
{
    if audits.len() > 0 {
        let a = audits.last();
        let before = audit_rows(audits.drop_last(), responses, timestamp);
        let issues = audit_issues(a.content) as i64;
        let rows = target_rows(a.provider, issues, responses, timestamp);
        lemma_audits_balance(audits.drop_last(), responses, timestamp);
        lemma_targets_balance(a.provider, issues, responses, timestamp);
        lemma_credited_append(before, rows, anyone(), found());
        lemma_credited_append(before, rows, anyone(), received());
    }
}

proof fn lemma_targets_balance(
    auditor: Seq<char>,
    issues: i64,
    responses: Seq<ResponseView>,
    timestamp: Seq<char>,
)
    ensures
        credited(
            target_rows(auditor, issues, responses, timestamp),
            anyone(),
            found(),
        ) == credited(
            target_rows(auditor, issues, responses, timestamp),
            anyone(),
            received(),
        ),
    decreases responses.len(),
{
    if responses.len() > 0 {
        let r = responses.last();
        let before = target_rows(auditor, issues, responses.drop_last(), timestamp);
        let rows = finding_rows(auditor, r.provider, issues, timestamp);
        lemma_targets_balance(auditor, issues, responses.drop_last(), timestamp);
        lemma_finding_credits(auditor, r.provider, issues, timestamp, anyone(), found());
        lemma_finding_credits(auditor, r.provider, issues, timestamp, anyone(), received());
        lemma_credited_append(before, rows, anyone(), found());
        lemma_credited_append(before, rows, anyone(), received());
    }
}

/// A debate counts once for each response of a provider, and an award once for the provider that it
/// names.
pub proof fn law_debates_and_awards_are_counted(
    result: ResultView,
    prompt: Seq<char>,
    best: Option<Seq<char>>,
    timestamp: Seq<char>,
    provider: Seq<char>,
)
    ensures
        credited(
            debate_log(result, prompt, best, timestamp),
            only(provider),
            debates(),
        ) == parts_taken(result.responses, only(provider)),
        credited(
            debate_log(result, prompt, best, timestamp),
            only(provider),
            awards(),
        ) == if best == Some(provider) {
            1int
        } else {
            0int
        },
{
    let whose = only(provider);
    assert forall|auditor: Seq<char>, target: Seq<char>, issues: i64|
        credited(
            #[trigger] finding_rows(auditor, target, issues, timestamp),
            whose,
            debates(),
        ) == 0 by {
        lemma_finding_credits(auditor, target, issues, timestamp, whose, debates());
    }
    assert forall|auditor: Seq<char>, target: Seq<char>, issues: i64|
        credited(
            #[trigger] finding_rows(auditor, target, issues, timestamp),
            whose,
            awards(),
        ) == 0 by {
        lemma_finding_credits(auditor, target, issues, timestamp, whose, awards());
    }
    lemma_audits_add_nothing(result.audits, result.responses, timestamp, whose, debates());
    lemma_audits_add_nothing(result.audits, result.responses, timestamp, whose, awards());
    lemma_log_credits(result, prompt, best, timestamp, whose, debates());
    lemma_log_credits(result, prompt, best, timestamp, whose, awards());
    lemma_part_credits(result.responses, timestamp, whose, debates());
    lemma_part_credits(result.responses, timestamp, whose, awards());
    lemma_award_credits(best, timestamp, whose, debates());
    lemma_award_credits(best, timestamp, whose, awards());
    let n = parts_taken(result.responses, whose);
    assert(n * 1 == n && n * 0 == 0) by (nonlinear_arith);
}

// What counts as an issue, and what is written.

/// Whether a line without white space around it is a heading, a numbered item or a bullet.
pub open spec fn lists_something(line: Seq<char>) -> bool {
    ||| exists|rest: Seq<char>| line == "## "@ + rest
    ||| exists|rest: Seq<char>| line == "### "@ + rest
    ||| exists|rest: Seq<char>| line == "- "@ + rest
    ||| exists|rest: Seq<char>| line == "* "@ + rest
    ||| line.len() > 0 && '0' <= line[0] <= '9' && exists|k: int|
        0 <= k < line.len() && #[trigger] line[k] == '.'
}

/// Whether a pattern occurs in a text.
pub open spec fn has_word(s: Seq<char>, patterns: Seq<&str>) -> bool {
    exists|p: int, a: Seq<char>, b: Seq<char>|
        #![trigger a + patterns[p]@ + b]
        0 <= p < patterns.len() && s == a + patterns[p]@ + b
}

/// Whether a line of a text lists something with a pattern in it.
pub open spec fn lists_issue(list: Seq<Seq<char>>, patterns: Seq<&str>) -> spec_fn(int) -> bool {
    |i: int| lists_something(trimmed(list[i])) && has_word(trimmed(list[i]), patterns)
}

proof fn lemma_lists_something(line: Seq<char>)
    ensures
        is_item(line) <==> lists_something(line),
{
    lemma_starts(line, "## "@);
    lemma_starts(line, "### "@);
    lemma_starts(line, "- "@);
    lemma_starts(line, "* "@);
    if line.contains('.') {
        assert(line[line.index_of('.')] == '.');
    }
}

proof fn lemma_starts(line: Seq<char>, start: Seq<char>)
    ensures
        start.is_prefix_of(line) <==> exists|rest: Seq<char>| line == start + rest,
{
    if start.is_prefix_of(line) {
        assert(line == start + line.skip(start.len() as int));
    }
    if exists|rest: Seq<char>| line == start + rest {
        let rest = choose|rest: Seq<char>| line == start + rest;
        assert(line.subrange(0, start.len() as int) == start);
    }
}

proof fn lemma_has_word(s: Seq<char>, patterns: Seq<&str>)
    ensures
        mentions(s, patterns) <==> has_word(s, patterns),
{
    if mentions(s, patterns) {
        let p = choose|p: int| 0 <= p < patterns.len() && occurs(s, (#[trigger] patterns[p])@);
        law_what_occurs(s, patterns[p]@);
        let (a, b) = choose|a: Seq<char>, b: Seq<char>| s == #[trigger] (a + patterns[p]@ + b);
        assert(s == a + patterns[p]@ + b);
    }
    if has_word(s, patterns) {
        let (p, a, b) = choose|p: int, a: Seq<char>, b: Seq<char>|
            #![trigger a + patterns[p]@ + b]
            0 <= p < patterns.len() && s == a + patterns[p]@ + b;
        law_what_occurs(s, patterns[p]@);
        assert(occurs(s, patterns[p]@));
    }
}

proof fn lemma_item_count(list: Seq<Seq<char>>, patterns: Seq<&str>) -> (hits: Seq<int>)
    ensures
        picks(hits, list.len() as int, lists_issue(list, patterns)),
        item_count(list, patterns) == hits.len(),
    decreases list.len(),
{
    if list.len() == 0 {
        Seq::empty()
    } else {
        let rest = list.drop_last();
        let n = rest.len() as int;
        let before = lemma_item_count(rest, patterns);
        let keep = lists_issue(list, patterns);
        assert forall|i: int| 0 <= i < n implies #[trigger] keep(i) == lists_issue(rest, patterns)(
            i,
        ) by {
            assert(rest[i] == list[i]);
        }
        lemma_picks_more(before, n, lists_issue(rest, patterns), keep);
        let line = trimmed(list.last());
        lemma_lists_something(line);
        lemma_has_word(line, patterns);
        assert(keep(n) == (is_item(line) && mentions(line, patterns)));
        if keep(n) {
            before.push(n)
        } else {
            before
        }
    }
}

/// Each line that lists something with a pattern in it is one issue. Where there is no such line, a
/// text that is not blank is one issue where a pattern is anywhere in it.
pub proof fn law_what_counts_as_an_issue(
    text: Seq<char>,
    lower: Seq<char>,
    patterns: Seq<&str>,
) -> (hits: Seq<int>)
    ensures
        picks(hits, lines(lower).len() as int, lists_issue(lines(lower), patterns)),
        issue_count(text, lower, patterns) == if hits.len() > 0 {
            hits.len()
        } else if !all_white(text) && has_word(lower, patterns) {
            1
        } else {
            0
        },
{
    lemma_has_word(lower, patterns);
    let (from, to) = law_trimming_takes_white_ends_only(text);
    if trimmed(text).len() == 0 {
        assert forall|k: int| 0 <= k < text.len() implies white(#[trigger] text[k]) by {
            if k < from {
                assert(white(text.take(from)[k]));
            } else {
                assert(white(text.skip(to)[k - to]));
            }
        }
    } else {
        assert(!white(text[from]));
    }
    lemma_item_count(lines(lower), patterns)
}

/// Whether a word by which an audit names an issue occurs in a text.
pub open spec fn names_issue(s: Seq<char>) -> bool {
    ||| occurs(s, "issue"@)
    ||| occurs(s, "error"@)
    ||| occurs(s, "flaw"@)
    ||| occurs(s, "problem"@)
    ||| occurs(s, "incorrect"@)
    ||| occurs(s, "critical"@)
    ||| occurs(s, "high risk"@)
    ||| occurs(s, "missing"@)
    ||| occurs(s, "wrong"@)
    ||| occurs(s, "bug"@)
    ||| occurs(s, "vulnerability"@)
    ||| occurs(s, "concern"@)
    ||| occurs(s, "weakness"@)
}

/// Whether a line of an audit lists an issue.
pub open spec fn lists_audit_issue(list: Seq<Seq<char>>) -> spec_fn(int) -> bool {
    |i: int| lists_something(trimmed(list[i])) && names_issue(trimmed(list[i]))
}

proof fn lemma_names_issue(s: Seq<char>)
    ensures
        has_word(s, ISSUE_PATTERNS@) <==> names_issue(s),
{
    lemma_has_word(s, ISSUE_PATTERNS@);
    let words = ISSUE_PATTERNS@;
    assert(words.len() == 13);
    assert(words[0]@ == "issue"@ && words[1]@ == "error"@ && words[2]@ == "flaw"@ && words[3]@
        == "problem"@ && words[4]@ == "incorrect"@ && words[5]@ == "critical"@ && words[6]@
        == "high risk"@ && words[7]@ == "missing"@ && words[8]@ == "wrong"@ && words[9]@ == "bug"@
        && words[10]@ == "vulnerability"@ && words[11]@ == "concern"@ && words[12]@ == "weakness"@);
}

/// The issues of an audit are counted in its text in lower case, so that the case of its letters
/// does not matter: each line that lists something with a word for an issue in it is one. Where
/// there is no such line, an audit that is not blank is one issue where such a word is anywhere in
/// it.
pub proof fn law_issues_of_an_audit(content: Seq<char>) -> (hits: Seq<int>)
    ensures
        ({
            let list = lines(lowercase(content));
            &&& picks(hits, list.len() as int, lists_audit_issue(list))
            &&& audit_issues(content) == if hits.len() > 0 {
                hits.len()
            } else if !all_white(content) && names_issue(lowercase(content)) {
                1
            } else {
                0
            }
        }),
{
    let lower = lowercase(content);
    let list = lines(lower);
    let hits = law_what_counts_as_an_issue(content, lower, ISSUE_PATTERNS@);
    lemma_names_issue(lower);
    let keep = lists_audit_issue(list);
    assert forall|i: int| #[trigger] keep(i) == lists_issue(list, ISSUE_PATTERNS@)(i) by {
        lemma_names_issue(trimmed(list[i]));
    }
    assert forall|a: int| 0 <= a < hits.len() implies 0 <= #[trigger] hits[a] < list.len() && keep(
        hits[a],
    ) by {
        assert(lists_issue(list, ISSUE_PATTERNS@)(hits[a]));
        assert(keep(hits[a]) == lists_issue(list, ISSUE_PATTERNS@)(hits[a]));
    }
    assert forall|i: int| 0 <= i < list.len() && #[trigger] keep(i) implies hits.contains(i) by {
        assert(lists_issue(list, ISSUE_PATTERNS@)(i));
    }
    hits
}

/// Two audits that are the same in lower case, neither of them blank, name as many issues.
pub proof fn law_case_does_not_matter(a: Seq<char>, b: Seq<char>)
    requires
        lowercase(a) == lowercase(b),
        !all_white(a),
        !all_white(b),
    ensures
        audit_issues(a) == audit_issues(b),
{
    lemma_not_blank(a);
    lemma_not_blank(b);
}

proof fn lemma_not_blank(s: Seq<char>)
    requires
        !all_white(s),
    ensures
        trimmed(s).len() > 0,
{
    let (from, to) = law_trimming_takes_white_ends_only(s);
    if from == to {
        assert forall|k: int| 0 <= k < s.len() implies white(#[trigger] s[k]) by {
            if k < from {
                assert(white(s.take(from)[k]));
            } else {
                assert(white(s.skip(to)[k - to]));
            }
        }
    }
}

/// A finding of so many issues, and what it does for auditor and target, stand at a place of a log.
pub open spec fn stands_at(
    log: Seq<ChangeView>,
    at: int,
    auditor: Seq<char>,
    target: Seq<char>,
    issues: i64,
    timestamp: Seq<char>,
) -> bool {
    &&& log[at] == (ChangeView::Finding { auditor, target, issues_found: issues })
    &&& log[at + 1] == (ChangeView::Credit {
        provider: auditor,
        counts: Counts { debates: 0, best: 0, found: issues, received: 0 },
        last_updated: timestamp,
    })
    &&& log[at + 2] == (ChangeView::Credit {
        provider: target,
        counts: Counts { debates: 0, best: 0, found: 0, received: issues },
        last_updated: timestamp,
    })
}

proof fn lemma_target_rows(
    auditor: Seq<char>,
    issues: i64,
    responses: Seq<ResponseView>,
    timestamp: Seq<char>,
) -> (kept: Seq<int>)
    ensures
        picks(kept, responses.len() as int, is_for_auditor(responses, auditor)),
        target_rows(auditor, issues, responses, timestamp).len() == 3 * kept.len(),
        forall|j: int|
            0 <= j < kept.len() ==> stands_at(
                target_rows(auditor, issues, responses, timestamp),
                3 * j,
                auditor,
                responses[#[trigger] kept[j]].provider,
                issues,
                timestamp,
            ),
    decreases responses.len(),
{
    if responses.len() == 0 {
        Seq::empty()
    } else {
        let rest = responses.drop_last();
        let n = rest.len() as int;
        let before = lemma_target_rows(auditor, issues, rest, timestamp);
        let keep = is_for_auditor(responses, auditor);
        assert forall|i: int| 0 <= i < n implies #[trigger] keep(i) == is_for_auditor(
            rest,
            auditor,
        )(i) by {
            assert(rest[i] == responses[i]);
        }
        lemma_picks_more(before, n, is_for_auditor(rest, auditor), keep);
        let kept = if keep(n) {
            before.push(n)
        } else {
            before
        };
        let rows = target_rows(auditor, issues, rest, timestamp);
        let all = target_rows(auditor, issues, responses, timestamp);
        assert forall|j: int| 0 <= j < kept.len() implies stands_at(
            all,
            3 * j,
            auditor,
            responses[#[trigger] kept[j]].provider,
            issues,
            timestamp,
        ) by {
            if j < before.len() {
                assert(kept[j] == before[j]);
                assert(rest[before[j]] == responses[before[j]]);
                assert(stands_at(
                    rows,
                    3 * j,
                    auditor,
                    rest[before[j]].provider,
                    issues,
                    timestamp,
                ));
                assert(all[3 * j] == rows[3 * j] && all[3 * j + 1] == rows[3 * j + 1] && all[3 * j
                    + 2] == rows[3 * j + 2]);
            }
        }
        kept
    }
}

/// Whether an audit is about a response: neither has an error, and they are not by the same
/// provider.
pub open spec fn is_about(
    audits: Seq<ResponseView>,
    responses: Seq<ResponseView>,
    a: int,
    r: int,
) -> bool {
    &&& 0 <= a < audits.len() && 0 <= r < responses.len()
    &&& audits[a].error is None && responses[r].error is None
    &&& audits[a].provider != responses[r].provider
}

/// Every audit is held against every response that it is about, in order: for each such pair there
/// is a finding with the number of issues of the audit, which the auditor found and the target
/// received.
pub proof fn law_every_audit_counts_against_its_targets(
    audits: Seq<ResponseView>,
    responses: Seq<ResponseView>,
    timestamp: Seq<char>,
) -> (pairs: Seq<(int, int)>)
    ensures
        forall|k: int|
            0 <= k < pairs.len() ==> is_about(
                audits,
                responses,
                (#[trigger] pairs[k]).0,
                pairs[k].1,
            ),
        forall|j: int, k: int|
            0 <= j < k < pairs.len() ==> (#[trigger] pairs[j]).0 < (#[trigger] pairs[k]).0 || (
            pairs[j].0 == pairs[k].0 && pairs[j].1 < pairs[k].1),
        forall|a: int, r: int| #[trigger]
            is_about(audits, responses, a, r) ==> pairs.contains((a, r)),
        audit_rows(audits, responses, timestamp).len() == 3 * pairs.len(),
        forall|k: int|
            0 <= k < pairs.len() ==> stands_at(
                audit_rows(audits, responses, timestamp),
                3 * k,
                audits[(#[trigger] pairs[k]).0].provider,
                responses[pairs[k].1].provider,
                audit_issues(audits[pairs[k].0].content) as i64,
                timestamp,
            ),
    decreases audits.len(),
{
    if audits.len() == 0 {
        Seq::empty()
    } else {
        let rest = audits.drop_last();
        let n = rest.len() as int;
        let a = audits.last();
        let before = law_every_audit_counts_against_its_targets(rest, responses, timestamp);
        let rows = audit_rows(rest, responses, timestamp);
        let all = audit_rows(audits, responses, timestamp);
        let issues = audit_issues(a.content) as i64;
        let kept = if a.error is None {
            lemma_target_rows(a.provider, issues, responses, timestamp)
        } else {
            Seq::empty()
        };
        let more = Seq::new(kept.len(), |j: int| (n, kept[j]));
        let pairs = before + more;
        let extra = target_rows(a.provider, issues, responses, timestamp);
        let mine = is_for_auditor(responses, a.provider);
        assert forall|k: int| 0 <= k < pairs.len() implies is_about(
            audits,
            responses,
            (#[trigger] pairs[k]).0,
            pairs[k].1,
        ) && stands_at(
            all,
            3 * k,
            audits[pairs[k].0].provider,
            responses[pairs[k].1].provider,
            audit_issues(audits[pairs[k].0].content) as i64,
            timestamp,
        ) by {
            if k < before.len() {
                assert(pairs[k] == before[k]);
                assert(is_about(rest, responses, before[k].0, before[k].1));
                assert(rest[before[k].0] == audits[before[k].0]);
                assert(stands_at(
                    rows,
                    3 * k,
                    rest[before[k].0].provider,
                    responses[before[k].1].provider,
                    audit_issues(rest[before[k].0].content) as i64,
                    timestamp,
                ));
                assert(all[3 * k] == rows[3 * k] && all[3 * k + 1] == rows[3 * k + 1] && all[3 * k
                    + 2] == rows[3 * k + 2]);
            } else {
                let j = k - before.len();
                assert(pairs[k] == more[j]);
                assert(mine(kept[j]));
                assert(stands_at(
                    extra,
                    3 * j,
                    a.provider,
                    responses[kept[j]].provider,
                    issues,
                    timestamp,
                ));
                assert(all[3 * k] == extra[3 * j] && all[3 * k + 1] == extra[3 * j + 1] && all[3
                    * k + 2] == extra[3 * j + 2]);
            }
        }
        assert forall|j: int, k: int| 0 <= j < k < pairs.len() implies (#[trigger] pairs[j]).0 < (
        #[trigger] pairs[k]).0 || (pairs[j].0 == pairs[k].0 && pairs[j].1 < pairs[k].1) by {
            if k < before.len() {
                assert(pairs[j] == before[j] && pairs[k] == before[k]);
            } else if j < before.len() {
                assert(pairs[j] == before[j] && pairs[k] == more[k - before.len()]);
                assert(is_about(rest, responses, before[j].0, before[j].1));
            } else {
                assert(pairs[j] == more[j - before.len()] && pairs[k] == more[k - before.len()]);
            }
        }
        assert forall|b: int, r: int| #[trigger]
            is_about(audits, responses, b, r) implies pairs.contains((b, r)) by {
            if b < n {
                assert(rest[b] == audits[b]);
                assert(is_about(rest, responses, b, r));
                let k = before.index_of((b, r));
                assert(pairs[k] == (b, r));
            } else {
                assert(mine(r));
                let j = kept.index_of(r);
                assert(pairs[before.len() + j] == more[j]);
            }
        }
        pairs
    }
}

/// A log starts with the debate, of whose prompt it keeps up to 200 characters, and the responses
/// in order. Behind them stand the findings, a part taken for each response, and the award.
pub proof fn law_what_a_log_holds(
    result: ResultView,
    prompt: Seq<char>,
    best: Option<Seq<char>>,
    timestamp: Seq<char>,
    i: int,
)
    ensures
        ({
            let log = debate_log(result, prompt, best, timestamp);
            let rows = audit_rows(result.audits, result.responses, timestamp);
            let n = result.responses.len() as int;
            let m = rows.len() as int;
            let r = result.responses[i];
            &&& log.len() == 1 + n + m + n + if best is Some {
                1int
            } else {
                0int
            }
            &&& log[0] matches ChangeView::Debate {
                timestamp: t,
                mode,
                prompt_preview,
                total_secs,
                num_providers,
                synthesis_provider,
            } && {
                &&& t == timestamp && mode == result.mode && total_secs == result.total_secs
                &&& prompt_preview.is_prefix_of(prompt)
                &&& prompt_preview.len() == if prompt.len() < 200 {
                    prompt.len()
                } else {
                    200
                }
                &&& num_providers == n as i64
                &&& result.synthesis is None ==> synthesis_provider is None
                &&& result.synthesis matches Some(s) ==> synthesis_provider == Some(s.provider)
            }
            &&& 0 <= i < n ==> (log[1 + i] matches ChangeView::Response {
                provider,
                model,
                content_chars,
                elapsed_secs,
                error,
                tokens_prompt,
                tokens_completion,
                tokens_total,
            } && {
                &&& provider == r.provider && model == r.model && error == r.error
                &&& content_chars == encode_utf8(r.content).len() as i64
                &&& elapsed_secs == r.elapsed_secs
                &&& r.tokens_used is None ==> tokens_prompt is None && tokens_completion is None
                    && tokens_total is None
                &&& r.tokens_used matches Some(t) ==> tokens_prompt == Some(t.prompt_tokens as i64)
                    && tokens_completion == Some(t.completion_tokens as i64) && tokens_total == Some(
                    t.total_tokens as i64,
                )
            })
            &&& log.subrange(1 + n, 1 + n + m) == rows
            &&& 0 <= i < n ==> log[1 + n + m + i] == (ChangeView::Credit {
                provider: r.provider,
                counts: Counts { debates: 1, best: 0, found: 0, received: 0 },
                last_updated: timestamp,
            })
            &&& best matches Some(name) ==> log[1 + n + m + n] == (ChangeView::Credit {
                provider: name,
                counts: Counts { debates: 0, best: 1, found: 0, received: 0 },
                last_updated: timestamp,
            })
        }),
{
    let log = debate_log(result, prompt, best, timestamp);
    let rows = audit_rows(result.audits, result.responses, timestamp);
    let n = result.responses.len() as int;
    assert(log.subrange(1 + n, 1 + n + rows.len()) =~= rows);
    if 0 <= i < n {
        assert(log[1 + i] == response_rows(result.responses)[i]);
        assert(log[1 + n + rows.len() + i] == part_rows(result.responses, timestamp)[i]);
    }
}

/// A debate is worth two points and an award three, and an issue received costs two. They are
/// shares of five points for each debate.
pub proof fn law_points_of_a_score(total_debates: int, times_best: int, received: int)
    ensures
        score_numerator(0, 0, 0) == 0,
        score_numerator(total_debates + 1, times_best, received) == score_numerator(
            total_debates,
            times_best,
            received,
        ) + 2,
        score_numerator(total_debates, times_best + 1, received) == score_numerator(
            total_debates,
            times_best,
            received,
        ) + 3,
        score_numerator(total_debates, times_best, received + 1) == score_numerator(
            total_debates,
            times_best,
            received,
        ) - 2,
        total_debates >= 1 ==> score_denominator(total_debates) == 5 * total_debates,
        total_debates <= 0 ==> score_denominator(total_debates) == 1,
{
}

/// The mathematical values of changes hold all that these hold, as it is and in order.
pub proof fn law_change_views_hold_everything(changes: Seq<Change>, i: int)
    requires
        0 <= i < changes.len(),
    ensures
        change_views(changes).len() == changes.len(),
        change_views(changes)[i] == match changes[i] {
            Change::Debate {
                timestamp,
                mode,
                prompt_preview,
                total_secs,
                num_providers,
                synthesis_provider,
            } => ChangeView::Debate {
                timestamp: timestamp@,
                mode: mode@,
                prompt_preview: prompt_preview@,
                total_secs: total_secs@,
                num_providers,
                synthesis_provider: opt_text(synthesis_provider),
            },
            Change::Response {
                provider,
                model,
                content_chars,
                elapsed_secs,
                error,
                tokens_prompt,
                tokens_completion,
                tokens_total,
            } => ChangeView::Response {
                provider: provider@,
                model: model@,
                content_chars,
                elapsed_secs: elapsed_secs@,
                error: opt_text(error),
                tokens_prompt,
                tokens_completion,
                tokens_total,
            },
            Change::Finding { auditor, target, issues_found } => ChangeView::Finding {
                auditor: auditor@,
                target: target@,
                issues_found,
            },
            Change::Credit { provider, counts, last_updated } => ChangeView::Credit {
                provider: provider@,
                counts,
                last_updated: last_updated@,
            },
        },
{
}

} // verus!
