//! Server-sent events: the lines of a stream and the text that they carry.

use crate::json::{contents, document, member, member_of, parse, Json};
use crate::text::{
    law_lines_end_at_line_feeds, lemma_line_behind, lemma_position, lemma_trimmed_push, lines,
    position, split_lines, starts_with, texts, trim, trimmed,
};
use vstd::prelude::*;

verus! {

/// The payload that an event line carries: what follows `data: `, unless it is the mark for the
/// end of the stream. White space around the line does not count.
pub open spec fn payload(line: Seq<char>) -> Option<Seq<char>> {
    let event = trimmed(line);
    if "data: "@.is_prefix_of(event) && event != "data: [DONE]"@ {
        Some(event.skip(6))
    } else {
        None
    }
}

/// Reads the payload of an event line.
pub fn event_payload(line: &str) -> (data: Option<String>)
    ensures
        match data {
            Some(d) => payload(line@) == Some(d@),
            None => payload(line@) is None,
        },
{
    let event = trim(line);
    let done = "data: [DONE]".to_owned();
    if starts_with(event.as_str(), "data: ") && event != done {
        proof {
            reveal_strlit("data: ");
        }
        let len: usize = event.as_str().unicode_len();
        Some(event.as_str().substring_char(6, len).to_owned())
    } else {
        None
    }
}

/// An object that may carry text in its member `content`.
#[derive(Debug)]
pub struct Carrier {
    /// The text, where the member is there and is a text.
    pub content: Option<String>,
}

/// The first choice of an event.
#[derive(Debug)]
pub struct EventChoice {
    /// The member `delta`, where there is one.
    pub delta: Option<Carrier>,
    /// The member `message`, where there is one.
    pub message: Option<Carrier>,
}

/// The text of an optional string.
pub open spec fn opt_text(s: Option<String>) -> Option<Seq<char>> {
    match s {
        Some(t) => Some(t@),
        None => None,
    }
}

/// A carrier as a mathematical value: the text that it carries, if any.
pub open spec fn carrier_view(c: Option<Carrier>) -> Option<Option<Seq<char>>> {
    match c {
        Some(k) => Some(opt_text(k.content)),
        None => None,
    }
}

/// An event choice as a mathematical value.
pub struct EventChoiceView {
    pub delta: Option<Option<Seq<char>>>,
    pub message: Option<Option<Seq<char>>>,
}

impl View for EventChoice {
    type V = EventChoiceView;

    open spec fn view(&self) -> EventChoiceView {
        EventChoiceView { delta: carrier_view(self.delta), message: carrier_view(self.message) }
    }
}

/// The text in the member `content` of a JSON value.
pub open spec fn carried_by(json: Json) -> Option<Seq<char>> {
    match member_of(json, "content"@) {
        Some(Json::Text(s)) => Some(s),
        _ => None,
    }
}

/// The carrier in the member `name` of a JSON value.
pub open spec fn carrier_of(json: Json, name: Seq<char>) -> Option<Option<Seq<char>>> {
    match member_of(json, name) {
        Some(inner) => Some(carried_by(inner)),
        None => None,
    }
}

/// The first choice of an event: the first item of its list `choices`.
pub open spec fn choice_of(event: Json) -> Option<EventChoiceView> {
    match member_of(event, "choices"@) {
        Some(Json::List(items)) => if items.len() > 0 {
            Some(
                EventChoiceView {
                    delta: carrier_of(items[0], "delta"@),
                    message: carrier_of(items[0], "message"@),
                },
            )
        } else {
            None
        },
        _ => None,
    }
}

/// The first choice of the event that a payload describes, where the payload is a JSON document.
pub open spec fn payload_choice(data: Seq<char>) -> Option<EventChoiceView> {
    match document(data) {
        Some(event) => choice_of(event),
        None => None,
    }
}

fn read_carrier(value: &serde_json::Value, name: &str) -> (carrier: Option<Carrier>)
    ensures
        carrier_view(carrier) == carrier_of(contents(*value), name@),
{
    match member(value, name) {
        Some(inner) => {
            let content: Option<String> = match member(inner, "content") {
                Some(c) => match c.as_str() {
                    Some(s) => Some(s.to_owned()),
                    None => None,
                },
                None => None,
            };
            Some(Carrier { content })
        },
        None => None,
    }
}

/// Reads the first choice of an event.
pub fn read_choice(event: &serde_json::Value) -> (choice: Option<EventChoice>)
    ensures
        match choice {
            Some(c) => choice_of(contents(*event)) == Some(c@),
            None => choice_of(contents(*event)) is None,
        },
{
    match member(event, "choices") {
        Some(list) => match list.as_array() {
            Some(items) => if items.len() > 0 {
                let first = &items[0];
                Some(
                    EventChoice {
                        delta: read_carrier(first, "delta"),
                        message: read_carrier(first, "message"),
                    },
                )
            } else {
                None
            },
            None => None,
        },
        None => None,
    }
}

/// The first choice that an event line brings.
pub open spec fn line_choice(line: Seq<char>) -> Option<EventChoiceView> {
    match payload(line) {
        Some(data) => payload_choice(data),
        None => None,
    }
}

/// Reads the first choice that an event line brings.
pub fn read_line(line: &str) -> (choice: Option<EventChoice>)
    ensures
        match choice {
            Some(c) => line_choice(line@) == Some(c@),
            None => line_choice(line@) is None,
        },
{
    match event_payload(line) {
        Some(data) => match parse(data.as_str()) {
            Some(event) => read_choice(&event),
            None => None,
        },
        None => None,
    }
}

/// The text that a choice adds to a response that came as one document: that of `delta`, or that of
/// `message` where there is no `delta`.
pub open spec fn response_piece(choice: EventChoiceView) -> Seq<char> {
    let carrier = if choice.delta is Some {
        choice.delta
    } else {
        choice.message
    };
    match carrier {
        Some(Some(s)) => s,
        _ => Seq::empty(),
    }
}

/// The text that a choice adds to a response that is read while it arrives: that of `delta`.
pub open spec fn stream_piece(choice: EventChoiceView) -> Option<Seq<char>> {
    match choice.delta {
        Some(Some(s)) => Some(s),
        _ => None,
    }
}

/// The token that a choice of a stream brings.
pub fn stream_token(choice: EventChoice) -> (token: Option<String>)
    ensures
        opt_text(token) == stream_piece(choice@),
{
    match choice.delta {
        Some(carrier) => carrier.content,
        None => None,
    }
}

/// The pieces of a response, one behind the other.
pub open spec fn response_text(choices: Seq<Option<EventChoiceView>>) -> Seq<char>
    decreases choices.len(),
{
    if choices.len() == 0 {
        Seq::empty()
    } else {
        response_text(choices.drop_last()) + match choices.last() {
            Some(c) => response_piece(c),
            None => Seq::empty(),
        }
    }
}

/// A text, or nothing where it is empty.
pub open spec fn non_empty(s: Seq<char>) -> Option<Seq<char>> {
    if s.len() == 0 {
        None
    } else {
        Some(s)
    }
}

/// The choices of a list as mathematical values.
pub open spec fn choice_views(choices: Seq<Option<EventChoice>>) -> Seq<Option<EventChoiceView>> {
    choices.map_values(
        |c: Option<EventChoice>|
            match c {
                Some(e) => Some(e@),
                None => None,
            },
    )
}

/// Puts the pieces of a response together. There is no response where they hold no text.
pub fn assemble_response(choices: &Vec<Option<EventChoice>>) -> (content: Option<String>)
    ensures
        opt_text(content) == non_empty(response_text(choice_views(choices@))),
{
    let mut content = String::new();
    let mut i: usize = 0;
    assert(choice_views(choices@).take(0).len() == 0);
    while i < choices.len()
        invariant
            i <= choices.len(),
            content@ == response_text(choice_views(choices@).take(i as int)),
        decreases choices.len() - i,
    {
        let ghost views = choice_views(choices@);
        match &choices[i] {
            Some(choice) => {
                let carrier = match &choice.delta {
                    Some(delta) => Some(delta),
                    None => choice.message.as_ref(),
                };
                match carrier {
                    Some(c) => match &c.content {
                        Some(s) => {
                            content.append(s.as_str());
                        },
                        None => {},
                    },
                    None => {},
                }
            },
            None => {},
        }
        i = i + 1;
        assert(views.take(i as int).drop_last() == views.take(i - 1));
        assert(content@ == response_text(views.take(i as int)));
    }
    assert(choice_views(choices@).take(i as int) == choice_views(choices@));
    if content.as_str().is_empty() {
        None
    } else {
        Some(content)
    }
}

/// The choices that the lines of a text bring.
pub open spec fn text_choices(s: Seq<char>) -> Seq<Option<EventChoiceView>> {
    lines(s).map_values(|line: Seq<char>| line_choice(line))
}

/// Reads a response that came as a text of server-sent events. There is none where the events
/// carry no text.
pub fn parse_sse_response(text: &str) -> (content: Option<String>)
    ensures
        opt_text(content) == non_empty(response_text(text_choices(text@))),
{
    let list = split_lines(text);
    let mut choices: Vec<Option<EventChoice>> = Vec::new();
    let mut i: usize = 0;
    while i < list.len()
        invariant
            i <= list.len(),
            texts(list@) == lines(text@),
            choice_views(choices@) == text_choices(text@).take(i as int),
        decreases list.len() - i,
    {
        let choice = read_line(list[i].as_str());
        let ghost before = choice_views(choices@);
        assert(texts(list@)[i as int] == list@[i as int]@);
        choices.push(choice);
        i = i + 1;
        assert(choice_views(choices@) == before.push(
            match choice {
                Some(e) => Some(e@),
                None => None,
            },
        ));
        assert(text_choices(text@).take(i as int) == text_choices(text@).take(i - 1).push(
            text_choices(text@)[i - 1],
        ));
    }
    assert(text_choices(text@).take(i as int) == text_choices(text@));
    assemble_response(&choices)
}

// What event lines bring.

/// The record under `name` in the first choice of the event on a line, where there is such a
/// record: the line is `data: ` and a JSON document, with nothing but white space around it, and is
/// not the mark for the end.
pub open spec fn record_on_line(line: Seq<char>, name: Seq<char>) -> Option<Json> {
    let event = trimmed(line);
    if "data: "@.is_prefix_of(event) && event != "data: [DONE]"@ {
        match document(event.skip(6)) {
            Some(Json::Record(top)) if top.contains_key("choices"@) => match top["choices"@] {
                Json::List(items) if items.len() > 0 => match items[0] {
                    Json::Record(choice) if choice.contains_key(name) => Some(choice[name]),
                    _ => None,
                },
                _ => None,
            },
            _ => None,
        }
    } else {
        None
    }
}

/// Whether the event on a line has the text `s` as its `content` under `name`.
pub open spec fn carries(line: Seq<char>, name: Seq<char>, s: Seq<char>) -> bool {
    record_on_line(line, name) matches Some(Json::Record(inner)) && inner.contains_key("content"@)
        && inner["content"@] == Json::Text(s)
}

/// A line of a stream brings the text that its event has under `delta`, whatever that text is, and
/// it brings nothing where there is none.
pub proof fn law_a_stream_line_brings_its_text(line: Seq<char>, s: Seq<char>)
    ensures
        (line_choice(line) matches Some(c) && stream_piece(c) == Some(s)) <==> carries(
            line,
            "delta"@,
            s,
        ),
{
}

/// The text that a line adds to a response that came as a whole.
pub open spec fn line_piece(line: Seq<char>) -> Seq<char> {
    match line_choice(line) {
        Some(c) => response_piece(c),
        None => Seq::empty(),
    }
}

/// A line of a whole response adds the text that its event has under `delta`, or the one under
/// `message` where there is no `delta`, whatever that text is. It adds nothing where there is none.
pub proof fn law_a_whole_line_adds_its_text(line: Seq<char>, s: Seq<char>)
    ensures
        carries(line, "delta"@, s) ==> line_piece(line) == s,
        record_on_line(line, "delta"@) is None && carries(line, "message"@, s) ==> line_piece(line)
            == s,
        line_piece(line) == s && s.len() > 0 ==> carries(line, "delta"@, s) || (record_on_line(
            line,
            "delta"@,
        ) is None && carries(line, "message"@, s)),
{
}

/// A response that came as a whole grows with each line by what the line adds, and nothing else.
/// There is a response where that comes to any text.
pub proof fn law_a_whole_response_is_the_sum_of_its_lines(text: Seq<char>, line: Seq<char>)
    requires
        text.len() > 0 ==> text.last() == '\n',
        line.len() > 0,
        !line.contains('\n'),
    ensures
        response_text(text_choices(text + line)) == response_text(text_choices(text)) + line_piece(
            line,
        ),
        response_text(text_choices(Seq::empty())) == Seq::<char>::empty(),
        non_empty(text) == if text.len() == 0 {
            None
        } else {
            Some(text)
        },
{
    if text.len() == 0 {
        assert(text + line == line);
        law_lines_end_at_line_feeds(line, text);
        assert(text_choices(text).len() == 0);
        assert(lines(line) == Seq::<Seq<char>>::empty().push(line));
        assert(text_choices(line).drop_last() == text_choices(text));
    } else {
        lemma_line_behind(text, line);
        assert(text_choices(text + line).drop_last() == text_choices(text));
    }
    assert(text_choices(text + line).last() == line_choice(line));
    assert(response_text(text_choices(text)) + Seq::<char>::empty() == response_text(
        text_choices(text),
    ));
}

/// A line feed behind a text adds nothing to it.
pub proof fn law_a_line_feed_adds_nothing(text: Seq<char>)
    requires
        text.len() > 0,
        text.last() != '\n',
    ensures
        response_text(text_choices(text.push('\n'))) == response_text(text_choices(text)),
{
    lemma_line_feed(text);
}

proof fn lemma_line_feed(text: Seq<char>)
    requires
        text.len() > 0,
        text.last() != '\n',
    ensures
        text_choices(text.push('\n')) == text_choices(text),
    decreases text.len(),
{
    let at = position(text, '\n');
    lemma_position(text, '\n');
    let line = text.take(at);
    assert(!line.contains('\n'));
    if at == text.len() {
        assert(line == text);
        assert(text.push('\n') == line + seq!['\n'] + Seq::<char>::empty());
        law_lines_end_at_line_feeds(line, Seq::<char>::empty());
        if line.last() == '\r' {
            let cut = line.take(line.len() - 1);
            assert(cut.push('\r') == line);
            lemma_trimmed_push(cut, '\r');
            assert(line_choice(cut) == line_choice(line));
        }
        assert(text_choices(text.push('\n')) =~= text_choices(text));
    } else {
        let rest = text.skip(at + 1);
        assert(at + 1 < text.len());
        assert(rest.last() == text.last());
        assert(text == line + seq!['\n'] + rest);
        assert(text.push('\n') == line + seq!['\n'] + rest.push('\n'));
        law_lines_end_at_line_feeds(line, rest);
        law_lines_end_at_line_feeds(line, rest.push('\n'));
        lemma_line_feed(rest);
        assert(lines(rest).len() == text_choices(rest).len());
        assert(lines(rest.push('\n')).len() == text_choices(rest.push('\n')).len());
        assert forall|i: int| 0 <= i < text_choices(text).len() implies #[trigger] text_choices(
            text.push('\n'),
        )[i] == text_choices(text)[i] by {
            if i > 0 {
                assert(text_choices(rest)[i - 1] == text_choices(text)[i]);
                assert(text_choices(rest.push('\n'))[i - 1] == text_choices(text.push('\n'))[i]);
            }
        }
        assert(text_choices(text.push('\n')) =~= text_choices(text));
    }
}

/// A line has a payload where, without the white space around it, it is `data: ` and the payload,
/// and is not the mark for the end.
pub proof fn law_what_a_payload_is(line: Seq<char>, data: Seq<char>)
    ensures
        payload(line) == Some(data) <==> trimmed(line) == "data: "@ + data && data != "[DONE]"@,
{
    reveal_strlit("data: ");
    reveal_strlit("[DONE]");
    reveal_strlit("data: [DONE]");
    let event = trimmed(line);
    assert("data: [DONE]"@ =~= "data: "@ + "[DONE]"@);
    if "data: "@.is_prefix_of(event) {
        assert(event =~= "data: "@ + event.skip(6));
    }
    if event == "data: "@ + data {
        assert(event.subrange(0, 6) =~= "data: "@);
        assert(event.skip(6) =~= data);
        if event == "data: [DONE]"@ {
            assert(event.skip(6) =~= "[DONE]"@);
        }
    }
}

} // verus!
