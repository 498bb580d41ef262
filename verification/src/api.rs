//! Requests to a model, its responses, and when a call is tried again.

use crate::config::{ProviderConfig, ProviderView};
use crate::number::{Real, RealView};
use crate::sse::{non_empty, opt_text, parse_sse_response, response_text, text_choices};
use crate::text::{chars_of, decimal, starts_with, text_of};
use vstd::arithmetic::power2::{lemma2_to64, lemma_pow2_strictly_increases, lemma_pow2_unfold, pow2};
use vstd::prelude::*;
use vstd::utf8::{encode_scalar, encode_utf8};

verus! {

/// The tokens that a call used.
#[derive(Clone, Copy, PartialEq, Eq, Structural, Debug)]
pub struct TokenUsage {
    pub prompt_tokens: u32,
    pub completion_tokens: u32,
    pub total_tokens: u32,
}

/// A message of a conversation with a model.
#[derive(Clone, Debug)]
pub struct ChatMessage {
    pub role: String,
    pub content: String,
}

/// A message as a mathematical value.
pub struct MessageView {
    pub role: Seq<char>,
    pub content: Seq<char>,
}

impl View for ChatMessage {
    type V = MessageView;

    open spec fn view(&self) -> MessageView {
        MessageView { role: self.role@, content: self.content@ }
    }
}

/// A response from a single model.
#[derive(Clone, Debug)]
pub struct ModelResponse {
    pub provider: String,
    pub label: String,
    pub model: String,
    pub content: String,
    pub elapsed_secs: Real,
    pub error: Option<String>,
    pub tokens_used: Option<TokenUsage>,
}

/// A response as a mathematical value.
pub struct ResponseView {
    pub provider: Seq<char>,
    pub label: Seq<char>,
    pub model: Seq<char>,
    pub content: Seq<char>,
    pub elapsed_secs: RealView,
    pub error: Option<Seq<char>>,
    pub tokens_used: Option<TokenUsage>,
}

impl View for ModelResponse {
    type V = ResponseView;

    open spec fn view(&self) -> ResponseView {
        ResponseView {
            provider: self.provider@,
            label: self.label@,
            model: self.model@,
            content: self.content@,
            elapsed_secs: self.elapsed_secs@,
            error: opt_text(self.error),
            tokens_used: self.tokens_used,
        }
    }
}

/// The number of bytes that a character takes in UTF-8.
pub open spec fn width(c: char) -> nat {
    if c <= '\u{7f}' {
        1
    } else if c <= '\u{7ff}' {
        2
    } else if c <= '\u{ffff}' {
        3
    } else {
        4
    }
}

/// The longest start of `s` that takes at most `max` bytes in UTF-8.
pub open spec fn truncated(s: Seq<char>, max: nat) -> Seq<char>
    decreases s.len(),
{
    if s.len() == 0 || width(s.first()) > max {
        Seq::empty()
    } else {
        seq![s.first()] + truncated(s.drop_first(), (max - width(s.first())) as nat)
    }
}

fn width_of(c: char) -> (bytes: usize)
    ensures
        bytes == width(c),
{
    if c <= '\u{7f}' {
        1
    } else if c <= '\u{7ff}' {
        2
    } else if c <= '\u{ffff}' {
        3
    } else {
        4
    }
}

/// Cuts a text to at most `max_len` bytes, between two characters.
pub fn truncate_str(s: &str, max_len: usize) -> (out: &str)
    ensures
        out@ == truncated(s@, max_len as nat),
{
    let chars = chars_of(s);
    let mut left: usize = max_len;
    let mut end: usize = 0;
    assert(s@.skip(0) == s@);
    assert(s@.take(0) + truncated(s@, max_len as nat) == truncated(s@, max_len as nat));
    while end < chars.len() && width_of(chars[end]) <= left
        invariant
            end <= chars.len(),
            chars@ == s@,
            s@.take(end as int) + truncated(s@.skip(end as int), left as nat) == truncated(
                s@,
                max_len as nat,
            ),
        decreases chars.len() - end,
    {
        let ghost rest = s@.skip(end as int);
        left = left - width_of(chars[end]);
        end = end + 1;
        proof {
            assert(rest.drop_first() == s@.skip(end as int));
            assert(s@.take(end as int) == s@.take(end - 1).push(rest.first()));
            assert(s@.take(end as int) + truncated(s@.skip(end as int), left as nat) == s@.take(
                end - 1,
            ) + (seq![rest.first()] + truncated(s@.skip(end as int), left as nat)));
        }
    }
    proof {
        assert(truncated(s@.skip(end as int), left as nat) == Seq::<char>::empty());
        assert(s@.take(end as int) + Seq::<char>::empty() == s@.take(end as int));
        assert(s@.subrange(0, end as int) == s@.take(end as int));
    }
    s.substring_char(0, end)
}

proof fn lemma_width(c: char)
    ensures
        encode_scalar(c as u32).len() == width(c),
{
}

/// Cutting a text keeps a start of it that fits, and one character more would not fit.
pub proof fn law_truncation(s: Seq<char>, max: nat)
    ensures
        truncated(s, max).is_prefix_of(s),
        encode_utf8(truncated(s, max)).len() <= max,
        truncated(s, max).len() < s.len() ==> encode_utf8(
            s.take(truncated(s, max).len() as int + 1),
        ).len() > max,
        encode_utf8(s).len() <= max ==> truncated(s, max) == s,
    decreases s.len(),
{
    if s.len() > 0 {
        let c = s.first();
        let rest = s.drop_first();
        lemma_width(c);
        assert(encode_utf8(s) == encode_scalar(c as u32) + encode_utf8(rest));
        if width(c) <= max {
            let left = (max - width(c)) as nat;
            law_truncation(rest, left);
            let kept = truncated(s, max);
            assert(kept.drop_first() == truncated(rest, left));
            assert(encode_utf8(kept) == encode_scalar(c as u32) + encode_utf8(kept.drop_first()));
            if kept.len() < s.len() {
                let longer = s.take(kept.len() as int + 1);
                assert(longer.drop_first() == rest.take(truncated(rest, left).len() as int + 1));
                assert(encode_utf8(longer) == encode_scalar(c as u32) + encode_utf8(
                    longer.drop_first(),
                ));
            }
            assert(kept.is_prefix_of(s));
        } else {
            let one = s.take(1);
            assert(one.drop_first() == Seq::<char>::empty());
            assert(encode_utf8(one) == encode_scalar(c as u32) + encode_utf8(one.drop_first()));
        }
    }
}

/// The URL of the chat endpoint below a base URL, whether or not that ends in slashes.
pub open spec fn endpoint(base_url: Seq<char>) -> Seq<char>
    decreases base_url.len(),
{
    if base_url.len() > 0 && base_url.last() == '/' {
        endpoint(base_url.drop_last())
    } else {
        base_url + "/chat/completions"@
    }
}

/// The URL to which a request for a chat completion goes.
pub fn chat_url(base_url: &str) -> (url: String)
    ensures
        url@ == endpoint(base_url@),
{
    let chars = chars_of(base_url);
    let mut end: usize = chars.len();
    assert(base_url@.take(end as int) == base_url@);
    while end > 0 && chars[end - 1] == '/'
        invariant
            end <= chars.len(),
            chars@ == base_url@,
            endpoint(base_url@.take(end as int)) == endpoint(base_url@),
        decreases end,
    {
        end = end - 1;
        assert(base_url@.take(end + 1).drop_last() == base_url@.take(end as int));
    }
    let mut url = text_of(&chars, 0, end);
    assert(url@ == base_url@.take(end as int));
    url.append("/chat/completions");
    url
}

/// The header that authorises a request.
pub fn authorization(api_key: &str) -> (value: String)
    ensures
        value@ == "Bearer "@ + api_key@,
{
    let mut value = "Bearer ".to_owned();
    value.append(api_key);
    value
}

/// The timeout of the connection: half a minute more than that of a call.
pub fn client_timeout(timeout_secs: u64) -> (secs: u64)
    requires
        timeout_secs + 30 <= u64::MAX,
    ensures
        secs == timeout_secs + 30,
{
    timeout_secs + 30
}

/// Whether a status code stands for success.
pub open spec fn success(code: u16) -> bool {
    200 <= code <= 299
}

/// Whether a status code blames the request, so that the same request would fail again. Code 429
/// asks to come back later.
pub open spec fn refused(code: u16) -> bool {
    400 <= code <= 499 && code != 429
}

/// Whether a status code stands for success.
pub fn is_success(code: u16) -> (yes: bool)
    ensures
        yes == success(code),
{
    200 <= code && code <= 299
}

/// The reason phrase that `reqwest::StatusCode::canonical_reason` knows for a status code.
pub uninterp spec fn reason_phrase(code: u16) -> Option<Seq<char>>;

/// A status code as it is shown: the number and its reason phrase.
pub open spec fn shown_status(code: u16) -> Seq<char> {
    decimal(code as nat) + " "@ + match reason_phrase(code) {
        Some(phrase) => phrase,
        None => "<unknown status code>"@,
    }
}

/// The rendering of a `reqwest::StatusCode`: its number, a space, and its reason phrase or a note
/// that there is none. Status codes have three digits.
#[verifier::external_body]
fn status_text(code: u16) -> (text: String)
    requires
        100 <= code <= 999,
    ensures
        text@ == decimal(code as nat) + " "@ + match reason_phrase(code) {
            Some(phrase) => phrase,
            None => "<unknown status code>"@,
        },
{
    reqwest::StatusCode::from_u16(code).map(|status| status.to_string()).unwrap_or_default()
}

/// A message in the reply of a model.
#[derive(Debug)]
pub struct ReplyMessage {
    pub content: Option<String>,
    pub reasoning_content: Option<String>,
}

/// The token counts in the reply of a model, as far as they are given.
#[derive(Clone, Copy, PartialEq, Eq, Structural, Debug)]
pub struct UsageReport {
    pub prompt_tokens: Option<u32>,
    pub completion_tokens: Option<u32>,
    pub total_tokens: Option<u32>,
}

/// The reply of a model: a message for each choice.
#[derive(Debug)]
pub struct ChatReply {
    pub choices: Vec<ReplyMessage>,
    pub usage: Option<UsageReport>,
}

/// The text of a reply message: its content, or its reasoning where the content is empty.
pub open spec fn message_text(message: ReplyMessage) -> Seq<char> {
    match opt_text(message.content) {
        Some(s) if s.len() > 0 => s,
        _ => match opt_text(message.reasoning_content) {
            Some(s) => s,
            None => Seq::empty(),
        },
    }
}

/// The text of a reply: that of its first choice.
pub open spec fn reply_text(reply: ChatReply) -> Seq<char> {
    if reply.choices@.len() == 0 {
        Seq::empty()
    } else {
        message_text(reply.choices@[0])
    }
}

/// A count, or zero where none is given.
pub open spec fn count_or_zero(n: Option<u32>) -> u32 {
    match n {
        Some(k) => k,
        None => 0,
    }
}

/// The tokens that a reply reports.
pub open spec fn reply_usage(reply: ChatReply) -> Option<TokenUsage> {
    match reply.usage {
        Some(u) => Some(
            TokenUsage {
                prompt_tokens: count_or_zero(u.prompt_tokens),
                completion_tokens: count_or_zero(u.completion_tokens),
                total_tokens: count_or_zero(u.total_tokens),
            },
        ),
        None => None,
    }
}

/// The text of a reply.
pub fn read_reply(reply: &ChatReply) -> (content: String)
    ensures
        content@ == reply_text(*reply),
{
    if reply.choices.len() == 0 {
        return String::new();
    }
    let message = &reply.choices[0];
    match &message.content {
        Some(s) => if !s.as_str().is_empty() {
            return s.clone();
        },
        None => {},
    }
    match &message.reasoning_content {
        Some(s) => s.clone(),
        None => String::new(),
    }
}

/// The tokens that a reply reports.
pub fn read_usage(reply: &ChatReply) -> (usage: Option<TokenUsage>)
    ensures
        usage == reply_usage(*reply),
{
    match reply.usage {
        Some(u) => Some(
            TokenUsage {
                prompt_tokens: u.prompt_tokens.unwrap_or(0),
                completion_tokens: u.completion_tokens.unwrap_or(0),
                total_tokens: u.total_tokens.unwrap_or(0),
            },
        ),
        None => None,
    }
}

/// What came of one attempt to call a model.
#[derive(Debug)]
pub enum CallEvent {
    /// The request could not be sent, or no answer came.
    RequestFailed(String),
    /// An answer with a status other than success, and its body.
    Rejected { code: u16, body: String },
    /// The body of the answer could not be read.
    BodyFailed(String),
    /// The body is a reply.
    Replied(ChatReply),
    /// The body is no reply, and why.
    NoReply { error: String, text: String },
}

/// When the time of a call is taken.
#[derive(Clone, Copy, PartialEq, Eq, Structural, Debug)]
pub enum Clock {
    /// When the head of the answer came.
    AtAnswer,
    /// When the call ends.
    AtEnd,
}

/// What an attempt to call a model amounts to.
#[derive(Debug)]
pub enum Judgement {
    /// It brought text.
    Success { content: String, tokens_used: Option<TokenUsage>, clock: Clock },
    /// It failed, and would fail again.
    Fatal(String),
    /// It failed, and may work later.
    Transient(String),
}

/// A judgement as a mathematical value.
pub enum JudgementView {
    Success { content: Seq<char>, tokens_used: Option<TokenUsage>, clock: Clock },
    Fatal(Seq<char>),
    Transient(Seq<char>),
}

impl View for Judgement {
    type V = JudgementView;

    open spec fn view(&self) -> JudgementView {
        match *self {
            Judgement::Success { content, tokens_used, clock } => JudgementView::Success {
                content: content@,
                tokens_used,
                clock,
            },
            Judgement::Fatal(e) => JudgementView::Fatal(e@),
            Judgement::Transient(e) => JudgementView::Transient(e@),
        }
    }
}

/// The complaint about an answer with a status other than success.
pub open spec fn rejection(code: u16, body: Seq<char>) -> Seq<char> {
    "HTTP "@ + shown_status(code) + ": "@ + truncated(body, 200)
}

/// The complaint about a body that is no reply.
pub open spec fn no_reply(error: Seq<char>, text: Seq<char>) -> Seq<char> {
    "JSON parse error: "@ + error + " — raw: "@ + truncated(text, 200)
}

/// What a body that is no reply amounts to, given the text that it carries when it is read as
/// server-sent events.
pub open spec fn judged_text(
    error: Seq<char>,
    text: Seq<char>,
    events: Option<Seq<char>>,
) -> JudgementView {
    match events {
        Some(content) if "data:"@.is_prefix_of(text) => JudgementView::Success {
            content,
            tokens_used: None,
            clock: Clock::AtEnd,
        },
        _ => JudgementView::Transient(no_reply(error, text)),
    }
}

/// What an attempt amounts to.
pub open spec fn judged(event: CallEvent) -> JudgementView {
    match event {
        CallEvent::RequestFailed(e) => JudgementView::Transient("Request error: "@ + e@),
        CallEvent::Rejected { code, body } => if refused(code) {
            JudgementView::Fatal(rejection(code, body@))
        } else {
            JudgementView::Transient(rejection(code, body@))
        },
        CallEvent::BodyFailed(e) => JudgementView::Transient("Body read error: "@ + e@),
        CallEvent::Replied(reply) => JudgementView::Success {
            content: reply_text(reply),
            tokens_used: reply_usage(reply),
            clock: Clock::AtAnswer,
        },
        CallEvent::NoReply { error, text } => judged_text(
            error@,
            text@,
            non_empty(response_text(text_choices(text@))),
        ),
    }
}

/// Whether an event can come from an answer: status codes have three digits, and a rejection has
/// none that stands for success.
pub open spec fn possible(event: CallEvent) -> bool {
    event matches CallEvent::Rejected { code, .. } ==> 100 <= code <= 999 && !success(code)
}

/// Builds the complaint about an answer with a status other than success.
pub fn describe_rejection(code: u16, body: &str) -> (error: String)
    requires
        100 <= code <= 999,
    ensures
        error@ == rejection(code, body@),
{
    let mut error = "HTTP ".to_owned();
    error.append(status_text(code).as_str());
    error.append(": ");
    error.append(truncate_str(body, 200));
    error
}

/// Judges a body that is no reply, given the text that it carries when it is read as server-sent
/// events.
pub fn judge_text(error: &str, text: &str, events: Option<String>) -> (judgement: Judgement)
    ensures
        judgement@ == judged_text(error@, text@, opt_text(events)),
{
    match events {
        Some(content) => if starts_with(text, "data:") {
            return Judgement::Success { content, tokens_used: None, clock: Clock::AtEnd };
        },
        None => {},
    }
    let mut complaint = "JSON parse error: ".to_owned();
    complaint.append(error);
    complaint.append(" — raw: ");
    complaint.append(truncate_str(text, 200));
    Judgement::Transient(complaint)
}

/// Judges an attempt to call a model.
pub fn judge(event: CallEvent) -> (judgement: Judgement)
    requires
        possible(event),
    ensures
        judgement@ == judged(event),
{
    match event {
        CallEvent::RequestFailed(e) => {
            let mut error = "Request error: ".to_owned();
            error.append(e.as_str());
            Judgement::Transient(error)
        },
        CallEvent::Rejected { code, body } => {
            let error = describe_rejection(code, body.as_str());
            if 400 <= code && code <= 499 && code != 429 {
                Judgement::Fatal(error)
            } else {
                Judgement::Transient(error)
            }
        },
        CallEvent::BodyFailed(e) => {
            let mut error = "Body read error: ".to_owned();
            error.append(e.as_str());
            Judgement::Transient(error)
        },
        CallEvent::Replied(reply) => Judgement::Success {
            content: read_reply(&reply),
            tokens_used: read_usage(&reply),
            clock: Clock::AtAnswer,
        },
        CallEvent::NoReply { error, text } => {
            let events = parse_sse_response(text.as_str());
            judge_text(error.as_str(), text.as_str(), events)
        },
    }
}

/// The pause in milliseconds before attempt number `attempt`, where the first try has number 0:
/// half a second, doubled with each further attempt.
pub open spec fn pause(attempt: nat) -> nat {
    500 * pow2((attempt - 1) as nat)
}

/// The last attempt whose pause can be counted in 64 bits.
pub const LAST_PAUSE: u32 = 56;

/// The pause in milliseconds before a repeated attempt.
pub fn backoff_millis(attempt: u32) -> (millis: u64)
    requires
        1 <= attempt <= LAST_PAUSE,
    ensures
        millis == pause(attempt as nat),
{
    let mut millis: u64 = 500;
    let mut i: u32 = 1;
    proof {
        lemma2_to64();
    }
    while i < attempt
        invariant
            1 <= i <= attempt <= LAST_PAUSE,
            millis == pause(i as nat),
        decreases attempt - i,
    {
        proof {
            lemma_pow2_unfold(i as nat);
            lemma2_to64();
            if i < 55 {
                lemma_pow2_strictly_increases(i as nat, 55);
            }
            assert(pow2(55) == 0x80_0000_0000_0000) by {
                vstd::arithmetic::power2::lemma2_to64_rest();
            }
        }
        millis = millis * 2;
        i = i + 1;
    }
    millis
}

/// Each pause is twice as long as the one before it.
pub proof fn law_pauses_double(attempt: nat)
    requires
        attempt >= 1,
    ensures
        pause(attempt + 1) == 2 * pause(attempt),
        pause(1) == 500,
{
    lemma_pow2_unfold(attempt);
    lemma2_to64();
}

/// The state of a call: the number of the attempt under way, and how many may follow the first.
#[derive(Clone, Copy, PartialEq, Eq, Structural, Debug)]
pub struct CallState {
    pub attempt: u32,
    pub max_retries: u32,
}

/// How a call ended.
#[derive(Debug)]
pub struct CallOutcome {
    pub content: String,
    pub error: Option<String>,
    pub tokens_used: Option<TokenUsage>,
    pub clock: Clock,
}

/// How a call ended, as a mathematical value.
pub struct OutcomeView {
    pub content: Seq<char>,
    pub error: Option<Seq<char>>,
    pub tokens_used: Option<TokenUsage>,
    pub clock: Clock,
}

impl View for CallOutcome {
    type V = OutcomeView;

    open spec fn view(&self) -> OutcomeView {
        OutcomeView {
            content: self.content@,
            error: opt_text(self.error),
            tokens_used: self.tokens_used,
            clock: self.clock,
        }
    }
}

/// What to do after an attempt.
#[derive(Debug)]
pub enum CallStep {
    /// The call has ended.
    Done(CallOutcome),
    /// Try again after a pause.
    Retry { pause_millis: u64 },
}

/// What to do after an attempt, as a mathematical value.
pub enum StepView {
    Done(OutcomeView),
    Retry { pause_millis: nat },
}

impl View for CallStep {
    type V = StepView;

    open spec fn view(&self) -> StepView {
        match *self {
            CallStep::Done(outcome) => StepView::Done(outcome@),
            CallStep::Retry { pause_millis } => StepView::Retry { pause_millis: pause_millis as nat },
        }
    }
}

/// The outcome of a call that failed.
pub open spec fn failed(error: Seq<char>, clock: Clock) -> OutcomeView {
    OutcomeView { content: Seq::empty(), error: Some(error), tokens_used: None, clock }
}

/// What to do after an attempt with the number `attempt` that amounts to `judgement`.
pub open spec fn step(state: CallState, judgement: JudgementView) -> StepView {
    match judgement {
        JudgementView::Success { content, tokens_used, clock } => StepView::Done(
            OutcomeView { content, error: None, tokens_used, clock },
        ),
        JudgementView::Fatal(error) => StepView::Done(failed(error, Clock::AtAnswer)),
        JudgementView::Transient(error) => if state.attempt < state.max_retries {
            StepView::Retry { pause_millis: pause((state.attempt + 1) as nat) }
        } else {
            StepView::Done(failed(error, Clock::AtEnd))
        },
    }
}

impl CallState {
    /// A call whose first attempt is under way.
    pub fn new(max_retries: u32) -> (state: CallState)
        ensures
            state == (CallState { attempt: 0, max_retries }),
    {
        CallState { attempt: 0, max_retries }
    }

    /// Decides what follows an attempt that was judged.
    pub fn decide(&mut self, judgement: Judgement) -> (next: CallStep)
        requires
            judgement is Transient && old(self).attempt < old(self).max_retries
                ==> old(self).attempt < LAST_PAUSE,
        ensures
            next@ == step(*old(self), judgement@),
            final(self).max_retries == old(self).max_retries,
            final(self).attempt == if next is Retry {
                (old(self).attempt + 1) as u32
            } else {
                old(self).attempt
            },
    {
        match judgement {
            Judgement::Success { content, tokens_used, clock } => CallStep::Done(
                CallOutcome { content, error: None, tokens_used, clock },
            ),
            Judgement::Fatal(error) => CallStep::Done(
                CallOutcome {
                    content: String::new(),
                    error: Some(error),
                    tokens_used: None,
                    clock: Clock::AtAnswer,
                },
            ),
            Judgement::Transient(error) => if self.attempt < self.max_retries {
                self.attempt = self.attempt + 1;
                CallStep::Retry { pause_millis: backoff_millis(self.attempt) }
            } else {
                CallStep::Done(
                    CallOutcome {
                        content: String::new(),
                        error: Some(error),
                        tokens_used: None,
                        clock: Clock::AtEnd,
                    },
                )
            },
        }
    }
}

/// The outcome of a call whose attempts are judged as listed, where it ends within them.
pub open spec fn ends(state: CallState, judgements: Seq<JudgementView>) -> Option<OutcomeView>
    decreases judgements.len(),
{
    if judgements.len() == 0 {
        None
    } else {
        match step(state, judgements.first()) {
            StepView::Done(outcome) => Some(outcome),
            StepView::Retry { .. } => ends(
                CallState { attempt: (state.attempt + 1) as u32, max_retries: state.max_retries },
                judgements.drop_first(),
            ),
        }
    }
}

/// A call ends after at most one attempt more than the retries that are allowed.
pub proof fn law_retries_are_bounded(state: CallState, judgements: Seq<JudgementView>)
    requires
        state.attempt <= state.max_retries,
        judgements.len() > state.max_retries - state.attempt,
    ensures
        ends(state, judgements) is Some,
    decreases judgements.len(),
{
    if step(state, judgements.first()) is Retry {
        law_retries_are_bounded(
            CallState { attempt: (state.attempt + 1) as u32, max_retries: state.max_retries },
            judgements.drop_first(),
        );
    }
}

/// A status that says to come back later, and every server error, is tried again as long as
/// retries are left; any other client error ends the call at once.
pub proof fn law_which_statuses_are_retried(state: CallState, code: u16, body: String)
    ensures
        (code == 429 || 500 <= code <= 599) && state.attempt < state.max_retries ==> step(
            state,
            judged(CallEvent::Rejected { code, body }),
        ) is Retry,
        400 <= code <= 499 && code != 429 ==> step(
            state,
            judged(CallEvent::Rejected { code, body }),
        ) == StepView::Done(failed(rejection(code, body@), Clock::AtAnswer)),
{
}

/// A provider's response, given how the call ended.
pub open spec fn response_of(
    provider: ProviderView,
    outcome: OutcomeView,
    elapsed: RealView,
) -> ResponseView {
    ResponseView {
        provider: provider.name,
        label: provider.display(),
        model: provider.model,
        content: outcome.content,
        elapsed_secs: elapsed,
        error: outcome.error,
        tokens_used: outcome.tokens_used,
    }
}

/// Builds a provider's response from how the call ended.
pub fn model_response(
    provider: &ProviderConfig,
    outcome: CallOutcome,
    elapsed_secs: Real,
) -> (response: ModelResponse)
    ensures
        response@ == response_of(provider@, outcome@, elapsed_secs@),
{
    ModelResponse {
        provider: provider.name.clone(),
        label: provider.display_name().to_owned(),
        model: provider.model.clone(),
        content: outcome.content,
        elapsed_secs,
        error: outcome.error,
        tokens_used: outcome.tokens_used,
    }
}

// What a call comes to.

/// Slashes at the end of a base URL do not matter, and all that is before them is kept.
pub proof fn law_slashes_do_not_matter(stem: Seq<char>, slashes: Seq<char>)
    requires
        stem.len() > 0 ==> stem.last() != '/',
        forall|k: int| 0 <= k < slashes.len() ==> #[trigger] slashes[k] == '/',
    ensures
        endpoint(stem + slashes) == stem + "/chat/completions"@,
    decreases slashes.len(),
{
    let all = stem + slashes;
    if slashes.len() == 0 {
        assert(all == stem);
    } else {
        assert(slashes[slashes.len() - 1] == '/');
        assert(all.drop_last() == stem + slashes.drop_last());
        law_slashes_do_not_matter(stem, slashes.drop_last());
    }
}

/// A reply says what its first choice has as content. Where that is missing or empty, it says what
/// the choice has as reasoning, or nothing. Counts of tokens are taken over, and one that is
/// missing is zero.
pub proof fn law_what_a_reply_says(reply: ChatReply)
    ensures
        reply.choices@.len() == 0 ==> reply_text(reply).len() == 0,
        reply.choices@.len() > 0 ==> {
            let first = reply.choices@[0];
            match first.content {
                Some(s) if s@.len() > 0 => reply_text(reply) == s@,
                _ => match first.reasoning_content {
                    Some(s) => reply_text(reply) == s@,
                    None => reply_text(reply).len() == 0,
                },
            }
        },
        reply.usage is None ==> reply_usage(reply) is None,
        reply.usage matches Some(u) ==> reply_usage(reply) matches Some(t) && {
            &&& u.prompt_tokens matches Some(n) ==> t.prompt_tokens == n
            &&& u.prompt_tokens is None ==> t.prompt_tokens == 0
            &&& u.completion_tokens matches Some(n) ==> t.completion_tokens == n
            &&& u.completion_tokens is None ==> t.completion_tokens == 0
            &&& u.total_tokens matches Some(n) ==> t.total_tokens == n
            &&& u.total_tokens is None ==> t.total_tokens == 0
        },
{
}

/// Whether `cut` is the longest start of a text that takes at most 200 bytes.
pub open spec fn is_excerpt(cut: Seq<char>, text: Seq<char>) -> bool {
    &&& cut.is_prefix_of(text)
    &&& encode_utf8(cut).len() <= 200
    &&& cut.len() < text.len() ==> encode_utf8(text.take(cut.len() as int + 1)).len() > 200
}

/// An answer with another status than success ends the call where it blames the request, and is
/// worth another try where it asks to come back later or blames anything else. The complaint names
/// the status and quotes the body.
pub proof fn law_what_a_rejection_amounts_to(code: u16, body: String) -> (cut: Seq<char>)
    ensures
        is_excerpt(cut, body@),
        ({
            let complaint = "HTTP "@ + decimal(code as nat) + " "@ + match reason_phrase(code) {
                Some(phrase) => phrase,
                None => "<unknown status code>"@,
            } + ": "@ + cut;
            judged(CallEvent::Rejected { code, body }) == if 400 <= code && code < 500 && code
                != 429 {
                JudgementView::Fatal(complaint)
            } else {
                JudgementView::Transient(complaint)
            }
        }),
        success(code) <==> 200 <= code && code < 300,
{
    let cut = truncated(body@, 200);
    law_truncation(body@, 200);
    let status = decimal(code as nat) + " "@ + match reason_phrase(code) {
        Some(phrase) => phrase,
        None => "<unknown status code>"@,
    };
    assert("HTTP "@ + status + ": "@ + cut == "HTTP "@ + decimal(code as nat) + " "@
        + match reason_phrase(code) {
        Some(phrase) => phrase,
        None => "<unknown status code>"@,
    } + ": "@ + cut);
    cut
}

/// A reply is a success with what it says. A body that is no reply is a success where it starts as
/// events do and they carry text: that text is what it says, all of it. Any other failure is worth
/// another try, and the complaint says what it was.
pub proof fn law_what_an_answer_amounts_to(reply: ChatReply, error: String, text: String) -> (cut: Seq<
    char,
>)
    ensures
        judged(CallEvent::Replied(reply)) == (JudgementView::Success {
            content: reply_text(reply),
            tokens_used: reply_usage(reply),
            clock: Clock::AtAnswer,
        }),
        is_excerpt(cut, text@),
        ({
            let said = response_text(text_choices(text@));
            judged(CallEvent::NoReply { error, text }) == if said.len() > 0 && (exists|rest: Seq<char>|
                text@ == "data:"@ + rest) {
                JudgementView::Success { content: said, tokens_used: None, clock: Clock::AtEnd }
            } else {
                JudgementView::Transient("JSON parse error: "@ + error@ + " — raw: "@ + cut)
            }
        }),
        judged(CallEvent::RequestFailed(error)) == JudgementView::Transient(
            "Request error: "@ + error@,
        ),
        judged(CallEvent::BodyFailed(error)) == JudgementView::Transient(
            "Body read error: "@ + error@,
        ),
{
    law_truncation(text@, 200);
    if "data:"@.is_prefix_of(text@) {
        assert(text@ == "data:"@ + text@.skip("data:"@.len() as int));
    }
    if exists|rest: Seq<char>| text@ == "data:"@ + rest {
        let rest = choose|rest: Seq<char>| text@ == "data:"@ + rest;
        assert(text@.subrange(0, "data:"@.len() as int) == "data:"@);
    }
    truncated(text@, 200)
}

/// A call goes on while its attempts fail in a way that may pass and retries are left. It ends with
/// the first attempt that does not, or with the last one that is allowed: a success brings its text
/// and its tokens, and a failure its complaint.
pub proof fn law_how_a_call_ends(state: CallState, judgements: Seq<JudgementView>, j: int)
    requires
        state.attempt <= state.max_retries,
        0 <= j < judgements.len(),
        j <= state.max_retries - state.attempt,
        forall|i: int| 0 <= i < j ==> (#[trigger] judgements[i]) is Transient,
        j < state.max_retries - state.attempt ==> !(judgements[j] is Transient),
    ensures
        ends(state, judgements) matches Some(outcome) && match judgements[j] {
            JudgementView::Success { content, tokens_used, clock } => outcome.content == content
                && outcome.tokens_used == tokens_used && outcome.error is None && outcome.clock
                == clock,
            JudgementView::Fatal(e) => outcome.error == Some(e) && outcome.content.len() == 0
                && outcome.tokens_used is None && outcome.clock == Clock::AtAnswer,
            JudgementView::Transient(e) => outcome.error == Some(e) && outcome.content.len() == 0
                && outcome.tokens_used is None && outcome.clock == Clock::AtEnd,
        },
        forall|k: nat| k <= j ==> #[trigger] ends(state, judgements.take(k as int)) is None,
    decreases j,
{
    let next = CallState {
        attempt: (state.attempt + 1) as u32,
        max_retries: state.max_retries,
    };
    if j > 0 {
        let rest = judgements.drop_first();
        assert(judgements[0] is Transient);
        assert forall|i: int| 0 <= i < j - 1 implies (#[trigger] rest[i]) is Transient by {
            assert(judgements[i + 1] is Transient);
        }
        assert(rest[j - 1] == judgements[j]);
        law_how_a_call_ends(next, rest, j - 1);
        assert forall|k: nat| k <= j implies #[trigger] ends(
            state,
            judgements.take(k as int),
        ) is None by {
            if k > 0 {
                assert(judgements.take(k as int).drop_first() == rest.take(k - 1));
                assert(ends(next, rest.take((k - 1) as nat as int)) is None);
            }
        }
    }
}

/// The pause before a further attempt is the one of that attempt.
pub proof fn law_pauses_follow_attempts(state: CallState, error: Seq<char>)
    requires
        state.attempt < state.max_retries,
    ensures
        step(state, JudgementView::Transient(error)) == (StepView::Retry {
            pause_millis: pause((state.attempt + 1) as nat),
        }),
{
}

/// A response names its provider and model, shows the provider under its label or else its name,
/// and says what the call came to.
pub proof fn law_what_a_response_holds(
    provider: ProviderView,
    outcome: OutcomeView,
    elapsed: RealView,
)
    ensures
        ({
            let r = response_of(provider, outcome, elapsed);
            &&& r.provider == provider.name && r.model == provider.model
            &&& provider.label matches Some(label) ==> r.label == label
            &&& provider.label is None ==> r.label == provider.name
            &&& r.content == outcome.content && r.error == outcome.error && r.tokens_used
                == outcome.tokens_used
            &&& r.elapsed_secs == elapsed
        }),
{
}

/// The mathematical values of messages, responses and outcomes hold all that these hold, as it is.
pub proof fn law_views_hold_everything(m: ChatMessage, r: ModelResponse, outcome: CallOutcome)
    ensures
        m@.role == m.role@ && m@.content == m.content@,
        r@.provider == r.provider@ && r@.label == r.label@ && r@.model == r.model@ && r@.content
            == r.content@,
        r@.elapsed_secs.bits == r.elapsed_secs.bits && r@.elapsed_secs.tenths
            == r.elapsed_secs.tenths@,
        r.error is None ==> r@.error is None,
        r.error matches Some(e) ==> r@.error == Some(e@),
        r@.tokens_used == r.tokens_used,
        outcome@.content == outcome.content@ && outcome@.tokens_used == outcome.tokens_used
            && outcome@.clock == outcome.clock,
        outcome.error is None ==> outcome@.error is None,
        outcome.error matches Some(e) ==> outcome@.error == Some(e@),
{
}

} // verus!
