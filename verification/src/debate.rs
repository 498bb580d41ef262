//! A debate between models: responses, cross-audit and synthesis.

use crate::api::{ModelResponse, ResponseView};
use crate::cli::DebateMode;
use crate::number::{Real, RealView};
use crate::sse::opt_text;
use crate::text::{
    all_white, is_blank, join, joined, law_lines_end_at_line_feeds, law_lines_joined,
    law_trimming_is_done_once, law_trimming_takes_white_ends_only, law_trimming_undoes_white_space,
    lemma_line_behind, lemma_position, lemma_position_is, lines, position, split_lines, starts_with,
    texts, trim, trimmed, trimmed_start, white,
};
use vstd::prelude::*;

verus! {

/// What a model is told in a quick debate.
pub const QUICK_SYSTEM: &'static str = "Answer directly and concisely. No fluff. If uncertain, say so clearly.";

/// What a model is told in a general debate.
pub const GENERAL_SYSTEM: &'static str = "You are a senior analyst. Provide a thorough, well-reasoned answer. Be specific, cite evidence, and note uncertainties. Structure your answer with clear sections.";

/// What a model is told in a code review.
pub const CODE_SYSTEM: &'static str = "You are a senior software engineer performing code review. Analyze for: bugs, security vulnerabilities, performance issues, edge cases, readability, and best practices. Be specific — cite line numbers, suggest fixes. Rate severity: CRITICAL / HIGH / MEDIUM / LOW for each issue.";

/// What a model is told in a diagnosis.
pub const DEBUG_SYSTEM: &'static str = "You are a senior debugger. Given an error and code context, diagnose the root cause. Explain WHY the error happens, not just WHAT. Provide a specific fix with code. Verify your fix would actually resolve the error.";

/// What a model is told in an adversarial debate.
pub const ADVERSARIAL_SYSTEM: &'static str = "You are a red-team security auditor. Your goal is to BREAK the code/design. Find every vulnerability, edge case, exploit vector, and failure mode. Be aggressive and creative. Think like an attacker. For each issue: describe the attack, its impact, and a fix.";

/// What a model is told that audits the responses of others.
pub const AUDIT_SYSTEM: &'static str = "You are a code auditor reviewing another AI's response. \
Your job is to find FLAWS, INACCURACIES, and MISSING PIECES. \
Be critical — don't agree just to be polite. \
For each issue found:\n\
1. Quote the problematic part\n\
2. Explain why it's wrong/incomplete\n\
3. Provide the correct answer or fix\n\
If the response is correct, say so explicitly and note any improvements.";

/// What a model is told that merges responses and audits.
pub const SYNTHESIS_SYSTEM: &'static str = "You are a senior technical lead synthesizing multiple expert opinions. \
You receive: the original task, responses from multiple AI models, \
and cross-audit feedback from each model reviewing the others.\n\n\
Your job:\n\
1. Identify where ALL models agree → high confidence\n\
2. Identify disagreements → pick the best answer with reasoning\n\
3. Merge the best parts from each response\n\
4. Flag any remaining uncertainties\n\
5. Produce a single, definitive, final answer\n\n\
Format: Start with the answer/recommendation, then supporting analysis, \
then a summary of what was merged from whom.\n\n\
At the end of your response, on a new line, output 'BEST: <provider_name>' \
where provider_name is the name of the model that gave the most accurate and helpful initial response.";

/// What a model is told in a mode.
pub open spec fn system_text(mode: DebateMode) -> Seq<char> {
    match mode {
        DebateMode::Quick => QUICK_SYSTEM@,
        DebateMode::General => GENERAL_SYSTEM@,
        DebateMode::Code => CODE_SYSTEM@,
        DebateMode::Debug => DEBUG_SYSTEM@,
        DebateMode::Adversarial => ADVERSARIAL_SYSTEM@,
    }
}

/// What a model is told in a mode.
pub fn system_prompt(mode: &DebateMode) -> (text: &'static str)
    ensures
        text@ == system_text(*mode),
{
    match mode {
        DebateMode::Quick => QUICK_SYSTEM,
        DebateMode::General => GENERAL_SYSTEM,
        DebateMode::Code => CODE_SYSTEM,
        DebateMode::Debug => DEBUG_SYSTEM,
        DebateMode::Adversarial => ADVERSARIAL_SYSTEM,
    }
}

/// The name under which a mode is shown.
pub open spec fn mode_text(mode: DebateMode) -> Seq<char> {
    match mode {
        DebateMode::Quick => "QUICK"@,
        DebateMode::General => "GENERAL"@,
        DebateMode::Code => "CODE REVIEW"@,
        DebateMode::Debug => "DEBUG"@,
        DebateMode::Adversarial => "ADVERSARIAL"@,
    }
}

/// The name under which a mode is shown.
pub fn mode_name(mode: &DebateMode) -> (name: &'static str)
    ensures
        name@ == mode_text(*mode),
{
    match mode {
        DebateMode::Quick => "QUICK",
        DebateMode::General => "GENERAL",
        DebateMode::Code => "CODE REVIEW",
        DebateMode::Debug => "DEBUG",
        DebateMode::Adversarial => "ADVERSARIAL",
    }
}

/// The name that a line awards as the best, where it is such a line: `BEST:` and a name.
pub open spec fn best_mark(line: Seq<char>) -> Option<Seq<char>> {
    let t = trimmed(line);
    if "BEST:"@.is_prefix_of(t) && trimmed(t.skip(5)).len() > 0 {
        Some(trimmed(t.skip(5)))
    } else {
        None
    }
}

/// The last line with a mark among the `tries` lines before line `end`.
pub open spec fn find_mark(list: Seq<Seq<char>>, end: int, tries: nat) -> Option<int>
    decreases tries,
{
    if end <= 0 || tries == 0 {
        None
    } else if best_mark(list[end - 1]) is Some {
        Some(end - 1)
    } else {
        find_mark(list, end - 1, (tries - 1) as nat)
    }
}

/// Lines without the blank ones at their end.
pub open spec fn without_blank_end(list: Seq<Seq<char>>) -> Seq<Seq<char>>
    decreases list.len(),
{
    if list.len() > 0 && trimmed(list.last()).len() == 0 {
        without_blank_end(list.drop_last())
    } else {
        list
    }
}

/// The award in a synthesis, and the synthesis without it. A mark counts within the last five
/// lines; what stands from it on is dropped, with the blank lines before it.
pub open spec fn parsed_best(content: Seq<char>) -> (Option<Seq<char>>, Seq<char>) {
    let list = lines(content);
    match find_mark(list, list.len() as int, 5) {
        Some(i) => (best_mark(list[i]), joined(without_blank_end(list.take(i)), "\n"@)),
        None => (None, content),
    }
}

proof fn lemma_find_mark(list: Seq<Seq<char>>, end: int, tries: nat)
    requires
        end <= list.len(),
    ensures
        match find_mark(list, end, tries) {
            Some(i) => {
                &&& 0 <= i < end
                &&& end - tries <= i
                &&& best_mark(list[i]) is Some
                &&& forall|k: int| i < k < end ==> best_mark(#[trigger] list[k]) is None
            },
            None => forall|k: int|
                0 <= k < end && end - tries <= k ==> best_mark(#[trigger] list[k]) is None,
        },
    decreases tries,
{
    if end > 0 && tries > 0 && best_mark(list[end - 1]) is None {
        lemma_find_mark(list, end - 1, (tries - 1) as nat);
    }
}

/// The last mark within the last five lines is the one that counts, the name that it awards has no
/// white space at its ends and is not empty, and a synthesis without a mark there stays as it is.
pub proof fn law_last_mark_counts(content: Seq<char>)
    ensures
        ({
            let list = lines(content);
            let n = list.len() as int;
            match parsed_best(content).0 {
                Some(name) => {
                    &&& exists|i: int|
                        {
                            &&& 0 <= i < n
                            &&& n - 5 <= i
                            &&& best_mark(#[trigger] list[i]) == Some(name)
                            &&& forall|k: int|
                                i < k < n ==> best_mark(#[trigger] list[k]) is None
                        }
                    &&& name.len() > 0
                    &&& trimmed(name) == name
                },
                None => {
                    &&& forall|k: int|
                        0 <= k < n && n - 5 <= k ==> best_mark(#[trigger] list[k]) is None
                    &&& parsed_best(content).1 == content
                },
            }
        }),
{
    let list = lines(content);
    lemma_find_mark(list, list.len() as int, 5);
    match find_mark(list, list.len() as int, 5) {
        Some(i) => {
            law_trimming_is_done_once(trimmed(list[i]).skip(5));
        },
        None => {},
    }
}

proof fn lemma_mark_line(name: Seq<char>)
    requires
        name.len() > 0,
        trimmed(name) == name,
    ensures
        best_mark("BEST: "@ + name) == Some(name),
{
    reveal_strlit("BEST: ");
    reveal_strlit("BEST:");
    law_trimming_is_done_once(name);
    let line = "BEST: "@ + name;
    assert(line.first() == 'B');
    assert(line.last() == name.last());
    assert(trimmed(line) == line);
    assert(line.subrange(0, 5) == "BEST:"@);
    let behind = line.skip(5);
    assert(behind.first() == ' ');
    assert(behind.drop_first() == name);
    assert(trimmed_start(name) == name);
    assert(trimmed_start(behind) == name);
}

proof fn lemma_blank_last_line(s: Seq<char>)
    requires
        s.len() > 0,
        !white(s.last()),
    ensures
        lines(s.push('\n')) == lines(s),
        lines(s).len() > 0,
        trimmed(lines(s).last()).len() > 0,
    decreases s.len(),
{
    let at = position(s, '\n');
    let more = s.push('\n');
    lemma_position(s, '\n');
    lemma_position(more, '\n');
    assert forall|k: int| 0 <= k < at implies more[k] != '\n' by {
        assert(more[k] == s[k]);
    }
    lemma_position_is(more, '\n', at);
    if at == s.len() {
        assert(more.take(at) == s);
        assert(more.skip(at + 1).len() == 0);
        assert(lines(more.skip(at + 1)) == Seq::<Seq<char>>::empty());
        assert(lines(more) == seq![s]);
        lemma_unblank(s);
    } else {
        let rest = s.skip(at + 1);
        assert(at + 1 < s.len());
        assert(rest.last() == s.last());
        lemma_blank_last_line(rest);
        assert(more.take(at) == s.take(at));
        assert(more.skip(at + 1) == rest.push('\n'));
    }
}

proof fn lemma_unblank(s: Seq<char>)
    requires
        s.len() > 0,
        !white(s.last()),
    ensures
        trimmed(s).len() > 0,
    decreases s.len(),
{
    if white(s.first()) {
        lemma_unblank(s.drop_first());
    }
}

/// What is reported of an answer with a mark on a line of its own behind it is the name in the
/// mark, and the lines of the answer without the blank ones at its end. Where the answer has no
/// carriage returns and no white space at its end, that is the answer itself.
pub proof fn law_mark_is_taken_out(answer: Seq<char>, name: Seq<char>)
    requires
        name.len() > 0,
        trimmed(name) == name,
        !name.contains('\n'),
    ensures
        ({
            let parsed = parsed_best(answer + "\n"@ + "BEST: "@ + name);
            &&& parsed.0 == Some(name)
            &&& parsed.1 == joined(without_blank_end(lines(answer + "\n"@)), "\n"@)
            &&& !answer.contains('\r') && (answer.len() > 0 ==> !white(answer.last()))
                ==> parsed.1 == answer
        }),
{
    reveal_strlit("\n");
    reveal_strlit("BEST: ");
    let above = answer + "\n"@;
    let line = "BEST: "@ + name;
    assert(answer + "\n"@ + "BEST: "@ + name == above + line);
    assert forall|k: int| 0 <= k < line.len() implies line[k] != '\n' by {
        if k >= 6 {
            assert(name.contains(name[k - 6]));
        }
    }
    lemma_line_behind(above, line);
    lemma_mark_line(name);
    let list = lines(above + line);
    assert(list.last() == line);
    assert(find_mark(list, list.len() as int, 5) == Some(list.len() - 1));
    assert(list.take(list.len() - 1) == lines(above));
    if !answer.contains('\r') && (answer.len() > 0 ==> !white(answer.last())) {
        if answer.len() == 0 {
            assert(above == seq!['\n']);
            lemma_position_is(above, '\n', 0);
            assert(above.skip(1).len() == 0);
            assert(lines(above.skip(1)) == Seq::<Seq<char>>::empty());
            let only = above.take(0);
            assert(lines(above) == seq![only]);
            assert(trimmed(only).len() == 0);
            assert(lines(above).drop_last() == Seq::<Seq<char>>::empty());
            assert(without_blank_end(lines(above).drop_last()) == Seq::<Seq<char>>::empty());
            assert(without_blank_end(lines(above)) == Seq::<Seq<char>>::empty());
            assert(joined(Seq::<Seq<char>>::empty(), "\n"@) == answer);
        } else {
            assert(above == answer.push('\n'));
            lemma_blank_last_line(answer);
            law_lines_joined(answer);
        }
    }
}

/// Reads the award of a line.
pub fn read_mark(line: &str) -> (name: Option<String>)
    ensures
        opt_text(name) == best_mark(line@),
{
    let t = trim(line);
    if starts_with(t.as_str(), "BEST:") {
        proof {
            reveal_strlit("BEST:");
        }
        let len: usize = t.as_str().unicode_len();
        let name = trim(t.as_str().substring_char(5, len));
        if !name.as_str().is_empty() {
            return Some(name);
        }
    }
    None
}

/// Reads the award in a synthesis, and takes it out.
pub fn parse_best_from_synthesis(content: &str) -> (parsed: (Option<String>, String))
    ensures
        (opt_text(parsed.0), parsed.1@) == parsed_best(content@),
{
    let list = split_lines(content);
    let ghost all = lines(content@);
    let mut end: usize = list.len();
    let mut tries: usize = 5;
    while end > 0 && tries > 0
        invariant
            end <= list.len(),
            tries <= 5,
            texts(list@) == all,
            all == lines(content@),
            find_mark(all, end as int, tries as nat) == find_mark(all, all.len() as int, 5),
        decreases end,
    {
        let mark = read_mark(list[end - 1].as_str());
        assert(all[end - 1] == list@[end - 1]@);
        match mark {
            Some(name) => {
                let mut kept: usize = end - 1;
                let ghost before = all.take(kept as int);
                while kept > 0 && is_blank(list[kept - 1].as_str())
                    invariant
                        kept <= list.len(),
                        texts(list@) == all,
                        without_blank_end(all.take(kept as int)) == without_blank_end(before),
                    decreases kept,
                {
                    assert(all.take(kept as int).last() == list@[kept - 1]@);
                    assert(all.take(kept as int).drop_last() == all.take(kept - 1));
                    kept = kept - 1;
                }
                assert(kept > 0 ==> all.take(kept as int).last() == list@[kept - 1]@);
                assert(without_blank_end(before) == all.take(kept as int));
                let cleaned = join(&list, kept, "\n");
                return (Some(name), cleaned);
            },
            None => {
                end = end - 1;
                tries = tries - 1;
            },
        }
    }
    (None, content.to_owned())
}

/// Result of a debate.
#[derive(Debug)]
pub struct DebateResult {
    pub mode: String,
    pub responses: Vec<ModelResponse>,
    pub audits: Vec<ModelResponse>,
    pub synthesis: Option<ModelResponse>,
    pub total_secs: Real,
}

/// The result of a debate as a mathematical value.
pub struct ResultView {
    pub mode: Seq<char>,
    pub responses: Seq<ResponseView>,
    pub audits: Seq<ResponseView>,
    pub synthesis: Option<ResponseView>,
    pub total_secs: RealView,
}

/// The responses of a list as mathematical values.
pub open spec fn response_views(list: Seq<ModelResponse>) -> Seq<ResponseView> {
    list.map_values(|r: ModelResponse| r@)
}

/// A response, where there is one, as a mathematical value.
pub open spec fn opt_response(r: Option<ModelResponse>) -> Option<ResponseView> {
    match r {
        Some(x) => Some(x@),
        None => None,
    }
}

impl View for DebateResult {
    type V = ResultView;

    open spec fn view(&self) -> ResultView {
        ResultView {
            mode: self.mode@,
            responses: response_views(self.responses@),
            audits: response_views(self.audits@),
            synthesis: opt_response(self.synthesis),
            total_secs: self.total_secs@,
        }
    }
}

// What holds of marks.

/// A line with nothing but `BEST:` and a name on it, whatever white space is around the two, awards
/// that name.
pub proof fn law_a_mark_awards_its_name(
    before: Seq<char>,
    between: Seq<char>,
    name: Seq<char>,
    behind: Seq<char>,
)
    requires
        all_white(before),
        all_white(between),
        all_white(behind),
        name.len() > 0,
        !white(name.first()),
        !white(name.last()),
    ensures
        best_mark(before + "BEST:"@ + between + name + behind) == Some(name),
{
    reveal_strlit("BEST:");
    let none = Seq::<char>::empty();
    let core = "BEST:"@ + between + name;
    assert(core.first() == 'B');
    assert(core.last() == name.last());
    assert(before + "BEST:"@ + between + name + behind == before + core + behind);
    law_trimming_undoes_white_space(before, core, behind);
    assert(core.subrange(0, 5) == "BEST:"@);
    assert("BEST:"@.is_prefix_of(core));
    assert(core.skip(5) == between + name + none);
    law_trimming_undoes_white_space(between, name, none);
}

/// A name that a line awards stands behind `BEST:` on that line, with nothing but white space
/// around the two.
pub proof fn law_an_award_stands_on_its_line(line: Seq<char>) -> (spaces: (
    Seq<char>,
    Seq<char>,
    Seq<char>,
))
    ensures
        best_mark(line) matches Some(name) ==> {
            &&& line == spaces.0 + "BEST:"@ + spaces.1 + name + spaces.2
            &&& all_white(spaces.0) && all_white(spaces.1) && all_white(spaces.2)
            &&& name.len() > 0 && !white(name.first()) && !white(name.last())
        },
{
    reveal_strlit("BEST:");
    let (from, to) = law_trimming_takes_white_ends_only(line);
    let t = trimmed(line);
    let before = line.take(from);
    if best_mark(line) is Some {
        let rest = t.skip(5);
        let (a, b) = law_trimming_takes_white_ends_only(rest);
        let name = best_mark(line).unwrap();
        let between = rest.take(a);
        let behind = line.skip(from + 5 + b);
        assert(t.subrange(0, 5) == "BEST:"@);
        assert(line == before + t + line.skip(to));
        assert(t == "BEST:"@ + rest);
        assert(rest == between + name + rest.skip(b));
        assert(behind == rest.skip(b) + line.skip(to));
        assert forall|k: int| 0 <= k < behind.len() implies white(#[trigger] behind[k]) by {
            if k < rest.skip(b).len() {
                assert(white(rest.skip(b)[k]));
            } else {
                assert(white(line.skip(to)[k - rest.skip(b).len()]));
            }
        }
        assert(line == before + "BEST:"@ + between + name + behind);
        (before, between, behind)
    } else {
        (before, before, before)
    }
}

/// Where a mark counts at line `at.0`, the text that is given back is the lines before line `at.1`,
/// joined by line feeds. The lines between the two are blank, and the line before them is not.
/// Without a mark the text is given back as it is.
pub proof fn law_only_the_mark_and_blank_lines_before_it_go(content: Seq<char>) -> (at: (int, int))
    ensures
        ({
            let list = lines(content);
            let (i, k) = at;
            match parsed_best(content).0 {
                Some(name) => {
                    &&& 0 <= k <= i < list.len()
                    &&& list.len() - 5 <= i
                    &&& best_mark(list[i]) == Some(name)
                    &&& forall|j: int| i < j < list.len() ==> best_mark(#[trigger] list[j]) is None
                    &&& parsed_best(content).1 == joined(list.take(k), "\n"@)
                    &&& forall|j: int| k <= j < i ==> all_white(#[trigger] list[j])
                    &&& k > 0 ==> !all_white(list[k - 1])
                },
                None => parsed_best(content).1 == content,
            }
        }),
{
    let list = lines(content);
    lemma_find_mark(list, list.len() as int, 5);
    match find_mark(list, list.len() as int, 5) {
        Some(i) => {
            let k = lemma_without_blank_end(list.take(i));
            assert(list.take(i).take(k) == list.take(k));
            assert forall|j: int| k <= j < i implies all_white(#[trigger] list[j]) by {
                assert(list.take(i)[j] == list[j]);
            }
            (i, k)
        },
        None => (0, 0),
    }
}

proof fn lemma_without_blank_end(list: Seq<Seq<char>>) -> (k: int)
    ensures
        0 <= k <= list.len(),
        without_blank_end(list) == list.take(k),
        forall|j: int| k <= j < list.len() ==> all_white(#[trigger] list[j]),
        k > 0 ==> !all_white(list[k - 1]),
    decreases list.len(),
{
    if list.len() > 0 {
        lemma_blank(list.last());
    }
    if list.len() > 0 && trimmed(list.last()).len() == 0 {
        let rest = list.drop_last();
        let k = lemma_without_blank_end(rest);
        assert(rest.take(k) == list.take(k));
        assert forall|j: int| k <= j < list.len() implies all_white(#[trigger] list[j]) by {
            if j < rest.len() {
                assert(rest[j] == list[j]);
            }
        }
        k
    } else {
        assert(list.take(list.len() as int) == list);
        list.len() as int
    }
}

proof fn lemma_blank(s: Seq<char>)
    ensures
        trimmed(s).len() == 0 <==> all_white(s),
{
    let (from, to) = law_trimming_takes_white_ends_only(s);
    if trimmed(s).len() == 0 {
        assert forall|k: int| 0 <= k < s.len() implies white(#[trigger] s[k]) by {
            if k < from {
                assert(white(s.take(from)[k]));
            } else {
                assert(white(s.skip(to)[k - to]));
            }
        }
    }
}

proof fn lemma_lines_append(s: Seq<char>, g: Seq<char>)
    requires
        s.len() > 0,
        !white(s.last()),
    ensures
        lines(s.push('\n') + g) == lines(s) + lines(g),
    decreases s.len(),
{
    let at = position(s, '\n');
    lemma_position(s, '\n');
    let line = s.take(at);
    assert(!line.contains('\n'));
    if at == s.len() {
        assert(line == s);
        assert(s.push('\n') + g == line + seq!['\n'] + g);
        law_lines_end_at_line_feeds(line, g);
    } else {
        let rest = s.skip(at + 1);
        assert(at + 1 < s.len());
        assert(rest.last() == s.last());
        assert(s == line + seq!['\n'] + rest);
        assert(s.push('\n') + g == line + seq!['\n'] + (rest.push('\n') + g));
        law_lines_end_at_line_feeds(line, rest);
        law_lines_end_at_line_feeds(line, rest.push('\n') + g);
        lemma_lines_append(rest, g);
        assert(lines(s.push('\n') + g) == lines(s) + lines(g));
    }
}

proof fn lemma_lines_of_white(g: Seq<char>)
    requires
        all_white(g),
    ensures
        forall|j: int| 0 <= j < lines(g).len() ==> all_white(#[trigger] lines(g)[j]),
    decreases g.len(),
{
    lemma_position(g, '\n');
    let at = position(g, '\n');
    if g.len() > 0 && at < g.len() {
        let rest = g.skip(at + 1);
        assert forall|k: int| 0 <= k < rest.len() implies white(#[trigger] rest[k]) by {
            assert(white(g[at + 1 + k]));
        }
        lemma_lines_of_white(rest);
        let first = g.take(at);
        let shown = if first.len() > 0 && first.last() == '\r' {
            first.drop_last()
        } else {
            first
        };
        assert forall|j: int| 0 <= j < lines(g).len() implies all_white(#[trigger] lines(g)[j]) by {
            if j == 0 {
                assert(lines(g)[0] == shown);
                assert forall|k: int| 0 <= k < shown.len() implies white(#[trigger] shown[k]) by {
                    assert(white(g[k]));
                }
            } else {
                assert(lines(g)[j] == lines(rest)[j - 1]);
            }
        }
    }
}

proof fn lemma_blank_end_goes(list: Seq<Seq<char>>, blank: Seq<Seq<char>>)
    requires
        forall|j: int| 0 <= j < blank.len() ==> all_white(#[trigger] blank[j]),
    ensures
        without_blank_end(list + blank) == without_blank_end(list),
    decreases blank.len(),
{
    if blank.len() == 0 {
        assert(list + blank == list);
    } else {
        let all = list + blank;
        assert(all_white(blank[blank.len() - 1]));
        lemma_blank(all.last());
        assert(all.drop_last() == list + blank.drop_last());
        lemma_blank_end_goes(list, blank.drop_last());
    }
}

/// Between an answer and the mark behind it there may be any white space that starts and ends with
/// a line feed: the answer comes back as it is, with the blank lines inside it. That is so where
/// the answer has no carriage returns and no white space at its end.
pub proof fn law_the_answer_comes_back(answer: Seq<char>, gap: Seq<char>, name: Seq<char>)
    requires
        !answer.contains('\r'),
        answer.len() > 0 ==> !white(answer.last()),
        all_white(gap),
        gap.len() > 0,
        gap.first() == '\n',
        gap.last() == '\n',
        name.len() > 0,
        !white(name.first()),
        !white(name.last()),
        !name.contains('\n'),
    ensures
        parsed_best(answer + gap + "BEST: "@ + name) == (Some(name), answer),
{
    reveal_strlit("BEST: ");
    reveal_strlit("BEST:");
    reveal_strlit("\n");
    let above = answer + gap;
    let line = "BEST: "@ + name;
    assert(answer + gap + "BEST: "@ + name == above + line);
    assert forall|k: int| 0 <= k < line.len() implies line[k] != '\n' by {
        if k >= 6 {
            assert(name.contains(name[k - 6]));
        }
    }
    lemma_line_behind(above, line);
    let none = Seq::<char>::empty();
    let space = seq![' '];
    assert(all_white(space));
    assert(line == none + "BEST:"@ + space + name + none);
    law_a_mark_awards_its_name(none, space, name, none);
    let list = lines(above + line);
    assert(list.last() == line);
    assert(find_mark(list, list.len() as int, 5) == Some(list.len() - 1));
    assert(list.take(list.len() - 1) == lines(above));
    let rest = gap.skip(1);
    assert forall|k: int| 0 <= k < rest.len() implies white(#[trigger] rest[k]) by {
        assert(white(gap[k + 1]));
    }
    lemma_lines_of_white(rest);
    if answer.len() == 0 {
        lemma_lines_of_white(gap);
        assert(above == gap);
        lemma_blank_end_goes(Seq::<Seq<char>>::empty(), lines(gap));
        assert(Seq::<Seq<char>>::empty() + lines(gap) == lines(gap));
        assert(without_blank_end(Seq::<Seq<char>>::empty()) == Seq::<Seq<char>>::empty());
        assert(joined(Seq::<Seq<char>>::empty(), "\n"@) == answer);
    } else {
        assert(above == answer.push('\n') + rest);
        lemma_lines_append(answer, rest);
        lemma_blank_end_goes(lines(answer), lines(rest));
        lemma_blank_last_line(answer);
        law_lines_joined(answer);
        assert(without_blank_end(lines(answer)) == lines(answer));
    }
}

/// Every mode is told what it is for, and shown under its name.
pub proof fn law_what_a_mode_is_told(mode: DebateMode)
    ensures
        mode == DebateMode::Quick ==> system_text(mode) == QUICK_SYSTEM@ && mode_text(mode)
            == "QUICK"@,
        mode == DebateMode::General ==> system_text(mode) == GENERAL_SYSTEM@ && mode_text(mode)
            == "GENERAL"@,
        mode == DebateMode::Code ==> system_text(mode) == CODE_SYSTEM@ && mode_text(mode)
            == "CODE REVIEW"@,
        mode == DebateMode::Debug ==> system_text(mode) == DEBUG_SYSTEM@ && mode_text(mode)
            == "DEBUG"@,
        mode == DebateMode::Adversarial ==> system_text(mode) == ADVERSARIAL_SYSTEM@ && mode_text(
            mode,
        ) == "ADVERSARIAL"@,
{
}

/// The mathematical value of a result holds all that it holds, as it is and in order.
pub proof fn law_result_view_holds_everything(result: DebateResult, i: int)
    ensures
        result@.mode == result.mode@,
        result@.responses.len() == result.responses@.len(),
        0 <= i < result.responses@.len() ==> result@.responses[i] == result.responses@[i]@,
        result@.audits.len() == result.audits@.len(),
        0 <= i < result.audits@.len() ==> result@.audits[i] == result.audits@[i]@,
        result.synthesis is None ==> result@.synthesis is None,
        result.synthesis matches Some(s) ==> result@.synthesis == Some(s@),
        result@.total_secs.bits == result.total_secs.bits && result@.total_secs.tenths
            == result.total_secs.tenths@,
{
}

} // verus!
