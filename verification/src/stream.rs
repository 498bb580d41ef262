//! Responses that are read while they arrive.

use crate::api::{describe_rejection, rejection, TokenUsage};
use crate::number::Real;
use crate::sse::{
    carries, law_a_stream_line_brings_its_text, line_choice, opt_text, read_line, response_text,
    stream_piece, stream_token, text_choices,
};
use crate::text::{
    chars_of, lemma_picks_more, lemma_position, lemma_position_is, lemma_trimmed_push, lines, picks,
    position, text_of, texts, without_return,
};
use vstd::prelude::*;
use vstd::utf8::{decode_utf8, valid_utf8};

verus! {

/// Result of a streaming call.
#[derive(Debug)]
pub struct StreamResponse {
    pub content: String,
    pub elapsed_secs: Real,
    pub tokens_used: Option<TokenUsage>,
    pub error: Option<String>,
}

/// The response where a stream was refused: no text, and the refusal as its error.
pub fn rejected_stream(code: u16, body: &str, elapsed_secs: Real) -> (response: StreamResponse)
    requires
        100 <= code <= 999,
    ensures
        response.content@.len() == 0,
        response.tokens_used is None,
        response.elapsed_secs == elapsed_secs,
        opt_text(response.error) == Some(rejection(code, body@)),
{
    StreamResponse {
        content: String::new(),
        elapsed_secs,
        tokens_used: None,
        error: Some(describe_rejection(code, body)),
    }
}

/// What `String::from_utf8_lossy` makes of bytes.
pub uninterp spec fn lossy(bytes: Seq<u8>) -> Seq<char>;

/// `String::from_utf8_lossy`: the text that the bytes encode; what is no valid UTF-8 is replaced.
#[verifier::external_body]
fn decode_lossy(bytes: &[u8]) -> (text: String)
    ensures
        text@ == lossy(bytes@),
        valid_utf8(bytes@) ==> text@ == decode_utf8(bytes@),
{
    String::from_utf8_lossy(bytes).into_owned()
}

/// The lines of `s` that a line feed ends.
pub open spec fn complete_lines(s: Seq<char>) -> Seq<Seq<char>>
    decreases s.len(),
    via complete_lines_decreases
{
    if position(s, '\n') >= s.len() {
        Seq::empty()
    } else {
        seq![s.take(position(s, '\n'))] + complete_lines(s.skip(position(s, '\n') + 1))
    }
}

#[via_fn]
proof fn complete_lines_decreases(s: Seq<char>) {
    lemma_position(s, '\n');
}

/// What follows the last line feed of `s`.
pub open spec fn unfinished(s: Seq<char>) -> Seq<char>
    decreases s.len(),
    via unfinished_decreases
{
    if position(s, '\n') >= s.len() {
        s
    } else {
        unfinished(s.skip(position(s, '\n') + 1))
    }
}

#[via_fn]
proof fn unfinished_decreases(s: Seq<char>) {
    lemma_position(s, '\n');
}

/// Splits off the complete lines of a text, and gives back what follows them.
pub fn split_complete(text: &str) -> (parts: (Vec<String>, String))
    ensures
        texts(parts.0@) == complete_lines(text@),
        parts.1@ == unfinished(text@),
{
    let chars = chars_of(text);
    let mut list: Vec<String> = Vec::new();
    let mut from: usize = 0;
    let mut to: usize = 0;
    assert(text@.skip(0) == text@);
    assert(texts(list@) + complete_lines(text@) == complete_lines(text@));
    while to < chars.len()
        invariant
            from <= to <= chars.len(),
            chars@ == text@,
            forall|k: int| from <= k < to ==> chars@[k] != '\n',
            texts(list@) + complete_lines(text@.skip(from as int)) == complete_lines(text@),
            unfinished(text@.skip(from as int)) == unfinished(text@),
        decreases chars.len() - to,
    {
        if chars[to] == '\n' {
            let ghost rest = text@.skip(from as int);
            let ghost before = texts(list@);
            proof {
                assert forall|k: int| 0 <= k < to - from implies rest[k] != '\n' by {
                    assert(rest[k] == chars@[from + k]);
                }
                lemma_position_is(rest, '\n', to - from);
                assert(rest.take(to - from) == chars@.subrange(from as int, to as int));
                assert(rest.skip(to - from + 1) == text@.skip(to + 1));
            }
            list.push(text_of(&chars, from, to));
            assert(texts(list@) == before.push(rest.take(to - from)));
            assert(texts(list@) + complete_lines(text@.skip(to + 1)) == before + complete_lines(
                rest,
            ));
            from = to + 1;
        }
        to = to + 1;
    }
    proof {
        let rest = text@.skip(from as int);
        assert forall|k: int| 0 <= k < rest.len() implies rest[k] != '\n' by {
            assert(rest[k] == chars@[from + k]);
        }
        lemma_position_is(rest, '\n', rest.len() as int);
        assert(chars@.subrange(from as int, to as int) == rest);
        assert(texts(list@) + complete_lines(rest) == texts(list@));
    }
    (list, text_of(&chars, from, to))
}

/// The tokens that event lines bring.
pub open spec fn tokens(lines: Seq<Seq<char>>) -> Seq<Seq<char>>
    decreases lines.len(),
{
    if lines.len() == 0 {
        Seq::empty()
    } else {
        tokens(lines.drop_last()) + match line_choice(lines.last()) {
            Some(choice) => match stream_piece(choice) {
                Some(s) => seq![s],
                None => Seq::empty(),
            },
            None => Seq::empty(),
        }
    }
}

/// All tokens, one behind the other.
pub open spec fn glued(parts: Seq<Seq<char>>) -> Seq<char>
    decreases parts.len(),
{
    if parts.len() == 0 {
        Seq::empty()
    } else {
        glued(parts.drop_last()) + parts.last()
    }
}

/// The state of a stream that is being read.
#[derive(Debug)]
pub struct StreamState {
    /// What has arrived of a line that is not complete yet.
    pub buf: String,
    /// The tokens so far, one behind the other.
    pub content: String,
}

/// The state of a stream as a mathematical value.
pub struct StreamView {
    pub buf: Seq<char>,
    pub content: Seq<char>,
}

impl View for StreamState {
    type V = StreamView;

    open spec fn view(&self) -> StreamView {
        StreamView { buf: self.buf@, content: self.content@ }
    }
}

/// The tokens that a stream brings when `text` arrives.
pub open spec fn arriving(state: StreamView, text: Seq<char>) -> Seq<Seq<char>> {
    tokens(complete_lines(state.buf + text))
}

/// The state of a stream once `text` has arrived.
pub open spec fn after(state: StreamView, text: Seq<char>) -> StreamView {
    StreamView {
        buf: unfinished(state.buf + text),
        content: state.content + glued(arriving(state, text)),
    }
}

impl StreamState {
    /// A stream of which nothing has arrived.
    pub fn new() -> (state: StreamState)
        ensures
            state@ == (StreamView { buf: Seq::empty(), content: Seq::empty() }),
    {
        StreamState { buf: String::new(), content: String::new() }
    }

    /// Takes in a piece of the stream. Gives back the tokens that it completes, in order.
    pub fn feed_text(&mut self, text: &str) -> (new: Vec<String>)
        ensures
            final(self)@ == after(old(self)@, text@),
            texts(new@) == arriving(old(self)@, text@),
    {
        let mut all = self.buf.clone();
        all.append(text);
        let (list, rest) = split_complete(all.as_str());
        let mut new: Vec<String> = Vec::new();
        let mut content = self.content.clone();
        let mut i: usize = 0;
        let ghost lines = complete_lines(all@);
        assert(lines.take(0).len() == 0);
        while i < list.len()
            invariant
                i <= list.len(),
                texts(list@) == lines,
                texts(new@) == tokens(lines.take(i as int)),
                content@ == old(self).content@ + glued(texts(new@)),
            decreases list.len() - i,
        {
            let ghost before = texts(new@);
            assert(lines[i as int] == list@[i as int]@);
            assert(lines.take(i + 1).drop_last() == lines.take(i as int));
            match read_line(list[i].as_str()) {
                Some(choice) => match stream_token(choice) {
                    Some(token) => {
                        content.append(token.as_str());
                        new.push(token);
                        assert(texts(new@) == before.push(token@));
                        assert(texts(new@).drop_last() == before);
                    },
                    None => {},
                },
                None => {},
            }
            i = i + 1;
            assert(texts(new@) == tokens(lines.take(i as int)));
        }
        assert(lines.take(i as int) == lines);
        self.buf = rest;
        self.content = content;
        new
    }

    /// Takes in the bytes of a chunk. Gives back the tokens that they complete, in order.
    pub fn feed(&mut self, chunk: &[u8]) -> (new: Vec<String>)
        ensures
            final(self)@ == after(old(self)@, lossy(chunk@)),
            texts(new@) == arriving(old(self)@, lossy(chunk@)),
            valid_utf8(chunk@) ==> lossy(chunk@) == decode_utf8(chunk@),
    {
        let text = decode_lossy(chunk);
        self.feed_text(text.as_str())
    }

    /// The response at the end of the stream. A stream without tokens is an error.
    pub fn finish(self, elapsed_secs: Real) -> (response: StreamResponse)
        ensures
            response.content@ == self@.content,
            response.elapsed_secs == elapsed_secs,
            response.tokens_used is None,
            opt_text(response.error) == if self@.content.len() == 0 {
                Some("Empty stream response"@)
            } else {
                None
            },
    {
        let error: Option<String> = if self.content.as_str().is_empty() {
            Some("Empty stream response".to_owned())
        } else {
            None
        };
        StreamResponse { content: self.content, elapsed_secs, tokens_used: None, error }
    }
}

/// What is split off when two texts arrive one after the other.
proof fn lemma_split_append(a: Seq<char>, b: Seq<char>)
    ensures
        complete_lines(a + b) == complete_lines(a) + complete_lines(unfinished(a) + b),
        unfinished(a + b) == unfinished(unfinished(a) + b),
    decreases a.len(),
{
    lemma_position(a, '\n');
    let at = position(a, '\n');
    if at < a.len() {
        let rest = a.skip(at + 1);
        assert forall|k: int| 0 <= k < at implies (a + b)[k] != '\n' by {
            assert((a + b)[k] == a[k]);
        }
        lemma_position_is(a + b, '\n', at);
        assert((a + b).take(at) == a.take(at));
        assert((a + b).skip(at + 1) == rest + b);
        lemma_split_append(rest, b);
        assert(complete_lines(a + b) == complete_lines(a) + complete_lines(unfinished(a) + b));
    } else {
        assert(complete_lines(a) + complete_lines(a + b) == complete_lines(a + b));
    }
}

proof fn lemma_tokens_append(a: Seq<Seq<char>>, b: Seq<Seq<char>>)
    ensures
        tokens(a + b) == tokens(a) + tokens(b),
    decreases b.len(),
{
    if b.len() == 0 {
        assert(a + b == a);
        assert(tokens(a) + tokens(b) == tokens(a));
    } else {
        assert((a + b).drop_last() == a + b.drop_last());
        lemma_tokens_append(a, b.drop_last());
        assert(tokens(a + b) == tokens(a) + tokens(b));
    }
}

proof fn lemma_glued_append(a: Seq<Seq<char>>, b: Seq<Seq<char>>)
    ensures
        glued(a + b) == glued(a) + glued(b),
    decreases b.len(),
{
    if b.len() == 0 {
        assert(a + b == a);
        assert(glued(a) + glued(b) == glued(a));
    } else {
        assert((a + b).drop_last() == a + b.drop_last());
        lemma_glued_append(a, b.drop_last());
        assert(glued(a + b) == glued(a) + glued(b));
    }
}

/// How a stream is cut into pieces does not matter: two pieces that arrive one after the other
/// bring the same tokens, and leave the same state, as both of them at once.
pub proof fn law_pieces_do_not_matter(state: StreamView, first: Seq<char>, second: Seq<char>)
    ensures
        after(after(state, first), second) == after(state, first + second),
        arriving(state, first) + arriving(after(state, first), second) == arriving(
            state,
            first + second,
        ),
{
    let all = state.buf + first;
    assert(state.buf + (first + second) == all + second);
    lemma_split_append(all, second);
    lemma_tokens_append(complete_lines(all), complete_lines(unfinished(all) + second));
    lemma_glued_append(arriving(state, first), arriving(after(state, first), second));
    assert(after(after(state, first), second).content == after(state, first + second).content);
}

proof fn lemma_lines_of_complete_text(s: Seq<char>)
    requires
        s.len() > 0 ==> s.last() == '\n',
    ensures
        lines(s).len() == complete_lines(s).len(),
        forall|i: int|
            0 <= i < lines(s).len() ==> #[trigger] lines(s)[i] == without_return(
                complete_lines(s)[i],
            ),
    decreases s.len(),
{
    lemma_position(s, '\n');
    if s.len() > 0 {
        let at = position(s, '\n');
        assert(at < s.len());
        let rest = s.skip(at + 1);
        lemma_lines_of_complete_text(rest);
        assert forall|i: int| 0 <= i < lines(s).len() implies #[trigger] lines(s)[i]
            == without_return(complete_lines(s)[i]) by {
            if i > 0 {
                assert(lines(s)[i] == lines(rest)[i - 1]);
                assert(complete_lines(s)[i] == complete_lines(rest)[i - 1]);
            }
        }
    }
}

proof fn lemma_same_text(whole: Seq<Seq<char>>, arrived: Seq<Seq<char>>)
    requires
        whole.len() == arrived.len(),
        forall|i: int|
            0 <= i < whole.len() ==> #[trigger] whole[i] == without_return(arrived[i]),
        forall|i: int|
            0 <= i < whole.len() ==> (line_choice(#[trigger] whole[i]) matches Some(c)
                ==> c.delta is Some),
    ensures
        response_text(whole.map_values(|line: Seq<char>| line_choice(line))) == glued(
            tokens(arrived),
        ),
    decreases whole.len(),
{
    let choices = whole.map_values(|line: Seq<char>| line_choice(line));
    if whole.len() > 0 {
        let rest = whole.drop_last();
        lemma_same_text(rest, arrived.drop_last());
        assert(choices.drop_last() == rest.map_values(|line: Seq<char>| line_choice(line)));
        let line = arrived.last();
        assert(whole.last() == without_return(line));
        if line.len() > 0 && line.last() == '\r' {
            lemma_trimmed_push(line.drop_last(), '\r');
            assert(line.drop_last().push('\r') == line);
        }
        assert(line_choice(whole.last()) == line_choice(line));
        assert(choices.last() == line_choice(line));
        let before = tokens(arrived.drop_last());
        match line_choice(line) {
            Some(choice) => match stream_piece(choice) {
                Some(piece) => {
                    assert(tokens(arrived) == before.push(piece));
                    assert(tokens(arrived).drop_last() == before);
                },
                None => {
                    assert(tokens(arrived) == before);
                },
            },
            None => {
                assert(tokens(arrived) == before);
            },
        }
        assert(response_text(choices) == glued(tokens(arrived)));
    }
}

/// A response whose events have a `delta` each is the same text whether it is read as a whole or
/// while it arrives.
pub proof fn law_stream_and_whole_agree(text: Seq<char>)
    requires
        text.len() > 0 ==> text.last() == '\n',
        forall|i: int|
            0 <= i < lines(text).len() ==> (line_choice(#[trigger] lines(text)[i]) matches Some(c)
                ==> c.delta is Some),
    ensures
        response_text(text_choices(text)) == after(
            StreamView { buf: Seq::empty(), content: Seq::empty() },
            text,
        ).content,
{
    let start = StreamView { buf: Seq::<char>::empty(), content: Seq::<char>::empty() };
    lemma_lines_of_complete_text(text);
    lemma_same_text(lines(text), complete_lines(text));
    assert(start.buf + text == text);
    assert(start.content + glued(arriving(start, text)) == glued(arriving(start, text)));
}

/// What a stream holds back is never a whole line, and content only grows.
pub proof fn law_only_unfinished_is_held_back(state: StreamView, text: Seq<char>)
    ensures
        !after(state, text).buf.contains('\n'),
        state.content.is_prefix_of(after(state, text).content),
{
    lemma_unfinished(state.buf + text);
    let grown = after(state, text).content;
    assert(grown.subrange(0, state.content.len() as int) == state.content);
}

proof fn lemma_unfinished(s: Seq<char>)
    ensures
        !unfinished(s).contains('\n'),
    decreases s.len(),
{
    lemma_position(s, '\n');
    if position(s, '\n') < s.len() {
        lemma_unfinished(s.skip(position(s, '\n') + 1));
    }
}

// What a stream brings.

/// Lines as they arrive: each of them ends with a line feed.
pub open spec fn fed(lines: Seq<Seq<char>>) -> Seq<char>
    decreases lines.len(),
{
    if lines.len() == 0 {
        Seq::empty()
    } else {
        fed(lines.drop_last()) + lines.last() + seq!['\n']
    }
}

/// Whether a text has no line feed in it.
pub open spec fn one_line(s: Seq<char>) -> bool {
    forall|k: int| 0 <= k < s.len() ==> #[trigger] s[k] != '\n'
}

/// What arrives is cut at line feeds and nowhere else: lines come out as they went in, and what no
/// line feed ends is held back whole.
pub proof fn law_a_stream_is_cut_at_line_feeds(list: Seq<Seq<char>>, rest: Seq<char>)
    requires
        forall|i: int| 0 <= i < list.len() ==> one_line(#[trigger] list[i]),
        one_line(rest),
    ensures
        complete_lines(fed(list) + rest) == list,
        unfinished(fed(list) + rest) == rest,
    decreases list.len(),
{
    let none = Seq::<char>::empty();
    lemma_position_is(rest, '\n', rest.len() as int);
    if list.len() == 0 {
        assert(fed(list) + rest == rest);
        assert(complete_lines(rest) =~= list);
    } else {
        let line = list.last();
        let before = list.drop_last();
        assert(one_line(list[list.len() - 1]));
        assert forall|i: int| 0 <= i < before.len() implies one_line(#[trigger] before[i]) by {
            assert(one_line(list[i]));
        }
        law_a_stream_is_cut_at_line_feeds(before, none);
        let last = line + seq!['\n'] + rest;
        assert(fed(before) + none == fed(before));
        assert(fed(list) + rest == fed(before) + last);
        lemma_split_append(fed(before), last);
        assert(none + last == last);
        let at = line.len() as int;
        assert forall|k: int| 0 <= k < at implies last[k] != '\n' by {
            assert(last[k] == line[k]);
        }
        assert(last[at] == '\n');
        lemma_position_is(last, '\n', at);
        assert(last.take(at) == line);
        assert(last.skip(at + 1) == rest);
        assert(complete_lines(rest) =~= Seq::<Seq<char>>::empty());
        assert(complete_lines(last) =~= seq![line]);
        assert(unfinished(rest) == rest);
        assert(unfinished(last) == unfinished(last.skip(at + 1)));
        assert(before + seq![line] =~= list);
    }
}

/// Whether a line brings a token.
pub open spec fn brings_token(list: Seq<Seq<char>>) -> spec_fn(int) -> bool {
    |i: int| exists|s: Seq<char>| carries(list[i], "delta"@, s)
}

/// The tokens of lines are, in order, the texts of those lines that have one, each of them as it
/// is.
pub proof fn law_every_text_is_a_token(list: Seq<Seq<char>>) -> (kept: Seq<int>)
    ensures
        picks(kept, list.len() as int, brings_token(list)),
        tokens(list).len() == kept.len(),
        forall|j: int|
            0 <= j < kept.len() ==> carries(list[kept[j]], "delta"@, #[trigger] tokens(list)[j]),
    decreases list.len(),
{
    if list.len() == 0 {
        Seq::empty()
    } else {
        let rest = list.drop_last();
        let n = rest.len() as int;
        let before = law_every_text_is_a_token(rest);
        let keep = brings_token(list);
        assert forall|i: int| 0 <= i < n implies #[trigger] keep(i) == brings_token(rest)(i) by {
            assert(rest[i] == list[i]);
        }
        lemma_picks_more(before, n, brings_token(rest), keep);
        let line = list.last();
        assert(line == list[n]);
        let brought: Option<Seq<char>> = match line_choice(line) {
            Some(c) => stream_piece(c),
            None => None,
        };
        match brought {
            Some(s) => {
                law_a_stream_line_brings_its_text(line, s);
                assert(carries(list[n], "delta"@, s));
                assert(keep(n));
                let kept = before.push(n);
                assert(tokens(list) == tokens(rest).push(s));
                assert forall|j: int| 0 <= j < kept.len() implies carries(
                    list[kept[j]],
                    "delta"@,
                    #[trigger] tokens(list)[j],
                ) by {
                    if j < before.len() {
                        assert(carries(rest[before[j]], "delta"@, tokens(rest)[j]));
                        assert(rest[before[j]] == list[before[j]]);
                    }
                }
                kept
            },
            None => {
                if keep(n) {
                    let s = choose|s: Seq<char>| carries(list[n], "delta"@, s);
                    law_a_stream_line_brings_its_text(line, s);
                    assert(false);
                }
                assert(tokens(list) == tokens(rest));
                assert forall|j: int| 0 <= j < before.len() implies carries(
                    list[before[j]],
                    "delta"@,
                    #[trigger] tokens(list)[j],
                ) by {
                    assert(carries(rest[before[j]], "delta"@, tokens(rest)[j]));
                    assert(rest[before[j]] == list[before[j]]);
                }
                before
            },
        }
    }
}

/// When the lines of events with texts arrive, each text comes out as a token, white space and all,
/// and the content grows by all of them in order.
pub proof fn law_content_grows_by_every_text(
    state: StreamView,
    list: Seq<Seq<char>>,
    said: Seq<Seq<char>>,
)
    requires
        state.buf.len() == 0,
        list.len() == said.len(),
        forall|i: int|
            0 <= i < list.len() ==> one_line(#[trigger] list[i]) && carries(
                list[i],
                "delta"@,
                said[i],
            ),
    ensures
        arriving(state, fed(list)) == said,
        after(state, fed(list)).buf.len() == 0,
        after(state, fed(list)).content == state.content + glued(said),
{
    let none = Seq::<char>::empty();
    law_a_stream_is_cut_at_line_feeds(list, none);
    assert(state.buf + fed(list) == fed(list) + none);
    lemma_all_texts(list, said);
}

proof fn lemma_all_texts(list: Seq<Seq<char>>, said: Seq<Seq<char>>)
    requires
        list.len() == said.len(),
        forall|i: int| 0 <= i < list.len() ==> carries(#[trigger] list[i], "delta"@, said[i]),
    ensures
        tokens(list) == said,
    decreases list.len(),
{
    if list.len() > 0 {
        let n = list.len() - 1;
        assert forall|i: int| 0 <= i < n implies carries(
            #[trigger] list.drop_last()[i],
            "delta"@,
            said.drop_last()[i],
        ) by {
            assert(carries(list[i], "delta"@, said[i]));
        }
        lemma_all_texts(list.drop_last(), said.drop_last());
        assert(carries(list[n], "delta"@, said[n]));
        law_a_stream_line_brings_its_text(list[n], said[n]);
        assert(said.drop_last() + seq![said[n]] =~= said);
    } else {
        assert(tokens(list) =~= said);
    }
}

/// What arrives is put behind what was held back. The content grows by the tokens of the lines that
/// this completes, and the rest is held back.
pub proof fn law_what_was_held_back_counts(
    state: StreamView,
    text: Seq<char>,
    list: Seq<Seq<char>>,
    rest: Seq<char>,
)
    requires
        state.buf + text == fed(list) + rest,
        forall|i: int| 0 <= i < list.len() ==> one_line(#[trigger] list[i]),
        one_line(rest),
    ensures
        arriving(state, text) == tokens(list),
        after(state, text).buf == rest,
        after(state, text).content == state.content + glued(tokens(list)),
{
    law_a_stream_is_cut_at_line_feeds(list, rest);
}

/// Tokens are put together one behind the other.
pub proof fn law_tokens_are_put_in_a_row(parts: Seq<Seq<char>>, part: Seq<char>)
    ensures
        glued(parts.push(part)) == glued(parts) + part,
        glued(Seq::<Seq<char>>::empty()) == Seq::<char>::empty(),
{
    assert(parts.push(part).drop_last() == parts);
}

/// The mathematical value of a stream holds all that it holds, as it is.
pub proof fn law_stream_view_holds_everything(state: StreamState)
    ensures
        state@.buf == state.buf@ && state@.content == state.content@,
{
}

} // verus!
