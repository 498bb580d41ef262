//! The rounds of a debate: who is asked what, and when the debate is over.

use crate::api::{ChatMessage, MessageView, ModelResponse, ResponseView};
use crate::cli::DebateMode;
use crate::config::{
    chosen, is_named, law_providers_are_chosen_in_order, name_list, Config, ProviderConfig,
    ProviderView,
};
use crate::debate::{
    mode_name, mode_text, opt_response, parse_best_from_synthesis, parsed_best, response_views,
    system_prompt, system_text, DebateResult, ResultView, AUDIT_SYSTEM, SYNTHESIS_SYSTEM,
};
use crate::history::{best_place, law_best_provider_is_the_last_maximum, ProviderScore};
use crate::number::{not_a_number, place, Real, RealView};
use crate::sse::opt_text;
use crate::stream::StreamResponse;
use crate::text::{
    decimal, join, joined, law_joined_parts_occur, lemma_joined_from_front, lemma_occurs_within,
    lemma_picks_more, occurs, picks, render, texts,
};
use vstd::prelude::*;

verus! {

/// How freely a model answers.
#[derive(Clone, Copy, PartialEq, Eq, Structural, Debug)]
pub enum Temperature {
    /// As the user asks for.
    Requested,
    /// Close to the facts: a temperature of one fifth.
    Low,
}

/// A call to one of the providers of a debate.
#[derive(Debug)]
pub struct Request {
    /// The place of the provider among those of the debate.
    pub provider: usize,
    pub messages: Vec<ChatMessage>,
    pub temperature: Temperature,
    /// Limit of tokens for the answer.
    pub max_tokens: u32,
    /// Timeout in seconds.
    pub timeout_secs: u64,
    /// Whether the answer is to be read while it arrives.
    pub stream: bool,
}

/// A call as a mathematical value.
#[verifier::ext_equal]
pub struct RequestView {
    pub provider: int,
    pub messages: Seq<MessageView>,
    pub temperature: Temperature,
    pub max_tokens: u32,
    pub timeout_secs: u64,
    pub stream: bool,
}

impl View for Request {
    type V = RequestView;

    open spec fn view(&self) -> RequestView {
        RequestView {
            provider: self.provider as int,
            messages: self.messages@.map_values(|m: ChatMessage| m@),
            temperature: self.temperature,
            max_tokens: self.max_tokens,
            timeout_secs: self.timeout_secs,
            stream: self.stream,
        }
    }
}

/// The calls of a list as mathematical values.
pub open spec fn request_views(list: Seq<Request>) -> Seq<RequestView> {
    list.map_values(|r: Request| r@)
}

/// The providers of a list as mathematical values.
pub open spec fn provider_views(list: Seq<&ProviderConfig>) -> Seq<ProviderView> {
    list.map_values(|p: &ProviderConfig| p@)
}

/// A conversation of what the model is told and what it is asked.
pub open spec fn conversation(system: Seq<char>, user: Seq<char>) -> Seq<MessageView> {
    seq![
        MessageView { role: "system"@, content: system },
        MessageView { role: "user"@, content: user },
    ]
}

fn converse(system: &str, user: &str) -> (messages: Vec<ChatMessage>)
    ensures
        messages@.map_values(|m: ChatMessage| m@) == conversation(system@, user@),
{
    let mut messages: Vec<ChatMessage> = Vec::new();
    messages.push(ChatMessage { role: "system".to_owned(), content: system.to_owned() });
    messages.push(ChatMessage { role: "user".to_owned(), content: user.to_owned() });
    assert(messages@.map_values(|m: ChatMessage| m@) == conversation(system@, user@));
    messages
}

// Round 1: every provider answers the prompt.

/// The first call to the provider at a place. An answer can be read while it arrives where the
/// provider has a key.
pub open spec fn first_request(
    providers: Seq<ProviderView>,
    at: int,
    mode: DebateMode,
    prompt: Seq<char>,
    timeout_secs: u64,
    max_tokens: u32,
    stream: bool,
) -> RequestView {
    RequestView {
        provider: at,
        messages: conversation(system_text(mode), prompt),
        temperature: Temperature::Requested,
        max_tokens: providers[at].token_limit(max_tokens),
        timeout_secs: providers[at].call_timeout(timeout_secs),
        stream: stream && providers[at].api_key.len() > 0,
    }
}

/// The calls of the first round: one to each provider.
pub open spec fn first_requests(
    providers: Seq<ProviderView>,
    mode: DebateMode,
    prompt: Seq<char>,
    timeout_secs: u64,
    max_tokens: u32,
    stream: bool,
) -> Seq<RequestView> {
    Seq::new(
        providers.len(),
        |at: int| first_request(providers, at, mode, prompt, timeout_secs, max_tokens, stream),
    )
}

// Round 2: every provider audits the responses of the others.

/// A response as its auditors read it.
pub open spec fn audit_block(r: ResponseView) -> Seq<char> {
    "--- "@ + r.label + " RESPONSE ---\n"@ + r.content
}

/// The responses that an auditor reads: those without error that are not its own.
pub open spec fn audit_blocks(responses: Seq<ResponseView>, auditor: Seq<char>) -> Seq<Seq<char>>
    decreases responses.len(),
{
    if responses.len() == 0 {
        Seq::empty()
    } else {
        let before = audit_blocks(responses.drop_last(), auditor);
        let r = responses.last();
        if r.error is None && r.provider != auditor {
            before.push(audit_block(r))
        } else {
            before
        }
    }
}

/// The number of responses without error.
pub open spec fn valid_count(responses: Seq<ResponseView>) -> nat
    decreases responses.len(),
{
    if responses.len() == 0 {
        0
    } else {
        valid_count(responses.drop_last()) + if responses.last().error is None {
            1nat
        } else {
            0nat
        }
    }
}

/// What an auditor is asked.
pub open spec fn audit_text(prompt: Seq<char>, blocks: Seq<Seq<char>>) -> Seq<char> {
    "ORIGINAL TASK:\n"@ + prompt + "\n\nRESPONSES TO AUDIT:\n"@ + joined(blocks, "\n\n"@)
        + "\n\nReview each response. Find errors, gaps, and improvements."@
}

/// The call to the auditor at a place.
pub open spec fn audit_request(
    providers: Seq<ProviderView>,
    at: int,
    responses: Seq<ResponseView>,
    prompt: Seq<char>,
    timeout_secs: u64,
) -> RequestView {
    RequestView {
        provider: at,
        messages: conversation(
            AUDIT_SYSTEM@,
            audit_text(prompt, audit_blocks(responses, providers[at].name)),
        ),
        temperature: Temperature::Low,
        max_tokens: providers[at].token_limit(3000),
        timeout_secs: providers[at].call_timeout(timeout_secs),
        stream: false,
    }
}

/// The calls to those of the first `count` providers that have something to audit.
pub open spec fn audits_upto(
    providers: Seq<ProviderView>,
    count: int,
    responses: Seq<ResponseView>,
    prompt: Seq<char>,
    timeout_secs: u64,
) -> Seq<RequestView>
    decreases count,
{
    if count <= 0 {
        Seq::empty()
    } else {
        let before = audits_upto(providers, count - 1, responses, prompt, timeout_secs);
        if audit_blocks(responses, providers[count - 1].name).len() > 0 {
            before.push(audit_request(providers, count - 1, responses, prompt, timeout_secs))
        } else {
            before
        }
    }
}

/// The calls of the second round. There is an audit where at least two responses have no error.
pub open spec fn audit_requests(
    providers: Seq<ProviderView>,
    responses: Seq<ResponseView>,
    prompt: Seq<char>,
    timeout_secs: u64,
) -> Seq<RequestView> {
    if valid_count(responses) >= 2 {
        audits_upto(providers, providers.len() as int, responses, prompt, timeout_secs)
    } else {
        Seq::empty()
    }
}

// Round 3: one provider merges everything.

/// The responses without error, as the synthesis reads them.
pub open spec fn answer_parts(responses: Seq<ResponseView>, between: Seq<char>) -> Seq<Seq<char>>
    decreases responses.len(),
{
    if responses.len() == 0 {
        Seq::empty()
    } else {
        let before = answer_parts(responses.drop_last(), between);
        let r = responses.last();
        if r.error is None {
            before.push("\n"@ + r.label + between + r.content)
        } else {
            before
        }
    }
}

/// The parts of what the synthesis is asked.
pub open spec fn synthesis_parts(
    prompt: Seq<char>,
    responses: Seq<ResponseView>,
    audits: Seq<ResponseView>,
) -> Seq<Seq<char>> {
    seq!["ORIGINAL TASK:\n"@ + prompt + "\n"@, "\n--- MODEL RESPONSES ---"@] + answer_parts(
        responses,
        ":\n"@,
    ) + seq!["\n\n--- CROSS-AUDIT FEEDBACK ---"@] + answer_parts(audits, " reviewed others:\n"@)
}

/// The first place of a provider with a name, or the number of providers where there is none.
pub open spec fn find_name(providers: Seq<ProviderView>, name: Seq<char>) -> int
    decreases providers.len(),
{
    if providers.len() == 0 {
        0
    } else if providers.first().name == name {
        0
    } else {
        1 + find_name(providers.drop_first(), name)
    }
}

/// The place of the provider that does the synthesis: the one with the best record, or the first.
pub open spec fn synthesiser(providers: Seq<ProviderView>, best: Option<Seq<char>>) -> int {
    match best {
        Some(name) => if find_name(providers, name) < providers.len() {
            find_name(providers, name)
        } else {
            0
        },
        None => 0,
    }
}

/// The call of the third round.
pub open spec fn synthesis_call(debate: DebateView, best: Option<Seq<char>>) -> RequestView {
    let at = synthesiser(debate.providers, best);
    RequestView {
        provider: at,
        messages: conversation(
            SYNTHESIS_SYSTEM@,
            joined(synthesis_parts(debate.prompt, debate.responses, debate.audits), "\n"@),
        ),
        temperature: Temperature::Low,
        max_tokens: debate.providers[at].token_limit(4096),
        timeout_secs: debate.providers[at].call_timeout(debate.timeout_secs),
        stream: false,
    }
}

/// How far a debate is.
#[derive(Clone, Copy, PartialEq, Eq, Structural, Debug)]
pub enum Phase {
    /// The providers answer the prompt.
    Responding,
    /// The providers audit each other.
    Auditing,
    /// One provider merges everything.
    Synthesising,
    /// Nobody is asked any more.
    Finished,
}

/// What follows the first round: a quick debate is over.
pub open spec fn after_responses(mode: DebateMode) -> Phase {
    match mode {
        DebateMode::Quick => Phase::Finished,
        _ => Phase::Auditing,
    }
}

/// What follows the second round: a general debate is over.
pub open spec fn after_audits(mode: DebateMode) -> Phase {
    match mode {
        DebateMode::General => Phase::Finished,
        _ => Phase::Synthesising,
    }
}

/// A debate under way.
pub struct Debate<'a> {
    pub mode: DebateMode,
    pub prompt: String,
    /// Timeout in seconds of a call to a provider that has none of its own.
    pub timeout_secs: u64,
    pub providers: Vec<&'a ProviderConfig>,
    pub phase: Phase,
    pub responses: Vec<ModelResponse>,
    pub audits: Vec<ModelResponse>,
    pub synthesis: Option<ModelResponse>,
}

/// A debate under way as a mathematical value.
#[verifier::ext_equal]
pub struct DebateView {
    pub mode: DebateMode,
    pub prompt: Seq<char>,
    pub timeout_secs: u64,
    pub providers: Seq<ProviderView>,
    pub phase: Phase,
    pub responses: Seq<ResponseView>,
    pub audits: Seq<ResponseView>,
    pub synthesis: Option<ResponseView>,
}

impl DebateView {
    /// A debate has at least two providers. What the rounds bring is there once they are over, and
    /// not before.
    pub open spec fn wf(self) -> bool {
        &&& self.providers.len() >= 2
        &&& self.phase == Phase::Responding ==> self.responses.len() == 0
        &&& self.phase == Phase::Responding || self.phase == Phase::Auditing ==> self.audits.len()
            == 0
        &&& self.phase != Phase::Finished ==> self.synthesis is None
    }
}

impl<'a> View for Debate<'a> {
    type V = DebateView;

    open spec fn view(&self) -> DebateView {
        DebateView {
            mode: self.mode,
            prompt: self.prompt@,
            timeout_secs: self.timeout_secs,
            providers: provider_views(self.providers@),
            phase: self.phase,
            responses: response_views(self.responses@),
            audits: response_views(self.audits@),
            synthesis: opt_response(self.synthesis),
        }
    }
}

/// The views of the providers that a configuration offers under the given names.
pub open spec fn chosen_views(config: Config, names: Option<&[String]>) -> Seq<ProviderView> {
    chosen(config.providers@, name_list(names)).map_values(|p: ProviderConfig| p@)
}

/// A debate whose providers are about to answer.
pub open spec fn opening(
    providers: Seq<ProviderView>,
    mode: DebateMode,
    prompt: Seq<char>,
    timeout_secs: u64,
) -> DebateView {
    DebateView {
        mode,
        prompt,
        timeout_secs,
        providers,
        phase: Phase::Responding,
        responses: Seq::empty(),
        audits: Seq::empty(),
        synthesis: None,
    }
}

/// A response with the award taken out of its text. One with an error stays as it is.
pub open spec fn cleaned(r: ResponseView) -> ResponseView {
    if r.error is None {
        ResponseView { content: parsed_best(r.content).1, ..r }
    } else {
        r
    }
}

/// The award in a response. One with an error has none.
pub open spec fn award(r: ResponseView) -> Option<Seq<char>> {
    if r.error is None {
        parsed_best(r.content).0
    } else {
        None
    }
}

/// A debate after its first round.
pub open spec fn responded(debate: DebateView, responses: Seq<ResponseView>) -> DebateView {
    DebateView { phase: after_responses(debate.mode), responses, ..debate }
}

/// A debate after its second round.
pub open spec fn audited(debate: DebateView, audits: Seq<ResponseView>) -> DebateView {
    DebateView { phase: after_audits(debate.mode), audits, ..debate }
}

/// A debate after its third round.
pub open spec fn synthesised(debate: DebateView, response: ResponseView) -> DebateView {
    DebateView { phase: Phase::Finished, synthesis: Some(cleaned(response)), ..debate }
}

/// The result of a debate that is over.
pub open spec fn result_of(debate: DebateView, total_secs: RealView) -> ResultView {
    ResultView {
        mode: mode_text(debate.mode),
        responses: debate.responses,
        audits: debate.audits,
        synthesis: debate.synthesis,
        total_secs,
    }
}

impl<'a> Debate<'a> {
    /// Opens a debate between the providers with the given names, or all of them. Gives back the
    /// calls of the first round. It takes at least two providers.
    pub fn start(
        config: &'a Config,
        mode: DebateMode,
        prompt: &str,
        names: Option<&[String]>,
        max_tokens: u32,
        stream: bool,
    ) -> (opened: Result<(Debate<'a>, Vec<Request>), String>)
        ensures
            match opened {
                Ok((debate, requests)) => {
                    let providers = chosen_views(*config, names);
                    &&& providers.len() >= 2
                    &&& debate@.wf()
                    &&& debate@ == opening(providers, mode, prompt@, config.timeout_secs)
                    &&& request_views(requests@) == first_requests(
                        providers,
                        mode,
                        prompt@,
                        config.timeout_secs,
                        max_tokens,
                        stream,
                    )
                },
                Err(e) => {
                    let found = chosen_views(*config, names).len();
                    &&& found < 2
                    &&& e@ == "Need at least 2 providers for debate (found "@ + decimal(found)
                        + ")"@
                },
            },
    {
        let providers = config.filter_providers(names);
        let ghost views = chosen_views(*config, names);
        proof {
            let plain = providers@.map_values(|p: &ProviderConfig| *p);
            assert(provider_views(providers@) == plain.map_values(|p: ProviderConfig| p@));
            assert(provider_views(providers@) == views);
        }
        if providers.len() < 2 {
            let mut e = "Need at least 2 providers for debate (found ".to_owned();
            e.append(render(providers.len() as u64).as_str());
            e.append(")");
            return Err(e);
        }
        let mut requests: Vec<Request> = Vec::new();
        let ghost wanted = first_requests(
            views,
            mode,
            prompt@,
            config.timeout_secs,
            max_tokens,
            stream,
        );
        let mut at: usize = 0;
        while at < providers.len()
            invariant
                at <= providers.len(),
                provider_views(providers@) == views,
                wanted == first_requests(
                    views,
                    mode,
                    prompt@,
                    config.timeout_secs,
                    max_tokens,
                    stream,
                ),
                request_views(requests@) == wanted.take(at as int),
            decreases providers.len() - at,
        {
            let provider = providers[at];
            assert(views[at as int] == provider@);
            let request = Request {
                provider: at,
                messages: converse(system_prompt(&mode), prompt),
                temperature: Temperature::Requested,
                max_tokens: provider.token_limit(max_tokens),
                timeout_secs: provider.call_timeout(config.timeout_secs),
                stream: stream && !provider.api_key.as_str().is_empty(),
            };
            assert(request@ == wanted[at as int]);
            let ghost before = request_views(requests@);
            requests.push(request);
            assert(request_views(requests@) == before.push(request@));
            at = at + 1;
            assert(wanted.take(at as int) == wanted.take(at - 1).push(wanted[at - 1]));
        }
        assert(wanted.take(at as int) == wanted);
        let debate = Debate {
            mode,
            prompt: prompt.to_owned(),
            timeout_secs: config.timeout_secs,
            providers,
            phase: Phase::Responding,
            responses: Vec::new(),
            audits: Vec::new(),
            synthesis: None,
        };
        assert(debate@.responses == Seq::<ResponseView>::empty());
        assert(debate@.audits == Seq::<ResponseView>::empty());
        Ok((debate, requests))
    }

    /// Takes in the responses of the first round. Gives back the calls of the second round: none
    /// where the debate is over.
    pub fn take_responses(&mut self, responses: Vec<ModelResponse>) -> (requests: Vec<Request>)
        requires
            old(self).phase == Phase::Responding,
        ensures
            final(self)@ == responded(old(self)@, response_views(responses@)),
            request_views(requests@) == if old(self).mode == DebateMode::Quick {
                Seq::empty()
            } else {
                audit_requests(
                    old(self)@.providers,
                    response_views(responses@),
                    old(self)@.prompt,
                    old(self)@.timeout_secs,
                )
            },
    {
        let quick = match self.mode {
            DebateMode::Quick => true,
            _ => false,
        };
        let requests: Vec<Request> = if quick {
            Vec::new()
        } else {
            plan_audits(&self.providers, &responses, self.prompt.as_str(), self.timeout_secs)
        };
        assert(quick ==> request_views(requests@) == Seq::<RequestView>::empty());
        self.phase = if quick {
            Phase::Finished
        } else {
            Phase::Auditing
        };
        self.responses = responses;
        requests
    }

    /// Takes in the audits of the second round.
    pub fn take_audits(&mut self, audits: Vec<ModelResponse>)
        requires
            old(self).phase == Phase::Auditing,
        ensures
            final(self)@ == audited(old(self)@, response_views(audits@)),
    {
        self.phase = match self.mode {
            DebateMode::General => Phase::Finished,
            _ => Phase::Synthesising,
        };
        self.audits = audits;
    }

    /// The call of the third round, given the provider with the best record, where one is known.
    pub fn synthesis_request(&self, best: Option<&str>) -> (request: Request)
        requires
            self.phase == Phase::Synthesising,
            self@.wf(),
        ensures
            request@ == synthesis_call(
                self@,
                match best {
                    Some(name) => Some(name@),
                    None => None,
                },
            ),
    {
        let at: usize = match best {
            Some(name) => {
                let found: usize = locate(&self.providers, name);
                if found < self.providers.len() {
                    found
                } else {
                    0
                }
            },
            None => 0,
        };
        let provider = self.providers[at];
        assert(self@.providers[at as int] == provider@);
        let parts = gather_parts(self.prompt.as_str(), &self.responses, &self.audits);
        let text = join(&parts, parts.len(), "\n");
        assert(texts(parts@).take(parts@.len() as int) == texts(parts@));
        Request {
            provider: at,
            messages: converse(SYNTHESIS_SYSTEM, text.as_str()),
            temperature: Temperature::Low,
            max_tokens: provider.token_limit(4096),
            timeout_secs: provider.call_timeout(self.timeout_secs),
            stream: false,
        }
    }

    /// Takes in the synthesis, with the award taken out of its text. Gives back the name of the
    /// provider that the award goes to.
    pub fn take_synthesis(&mut self, response: ModelResponse) -> (best: Option<String>)
        requires
            old(self).phase == Phase::Synthesising,
        ensures
            final(self)@ == synthesised(old(self)@, response@),
            opt_text(best) == award(response@),
    {
        let (best, content) = if response.error.is_none() {
            parse_best_from_synthesis(response.content.as_str())
        } else {
            (None, response.content.clone())
        };
        self.phase = Phase::Finished;
        self.synthesis = Some(ModelResponse { content, ..response });
        best
    }

    /// The result of a debate that is over.
    pub fn into_result(self, total_secs: Real) -> (result: DebateResult)
        requires
            self.phase == Phase::Finished,
        ensures
            result@ == result_of(self@, total_secs@),
    {
        DebateResult {
            mode: mode_name(&self.mode).to_owned(),
            responses: self.responses,
            audits: self.audits,
            synthesis: self.synthesis,
            total_secs,
        }
    }
}

fn describe_response(r: &ModelResponse) -> (text: String)
    ensures
        text@ == audit_block(r@),
{
    let mut text = "--- ".to_owned();
    text.append(r.label.as_str());
    text.append(" RESPONSE ---\n");
    text.append(r.content.as_str());
    text
}

fn collect_blocks(responses: &Vec<ModelResponse>, auditor: &String) -> (blocks: Vec<String>)
    ensures
        texts(blocks@) == audit_blocks(response_views(responses@), auditor@),
{
    let ghost views = response_views(responses@);
    let mut blocks: Vec<String> = Vec::new();
    let mut i: usize = 0;
    assert(views.take(0).len() == 0);
    while i < responses.len()
        invariant
            i <= responses.len(),
            views == response_views(responses@),
            texts(blocks@) == audit_blocks(views.take(i as int), auditor@),
        decreases responses.len() - i,
    {
        let r = &responses[i];
        let ghost before = texts(blocks@);
        proof {
            assert(views.take(i + 1).drop_last() == views.take(i as int));
            assert(views.take(i + 1).last() == r@);
        }
        if r.error.is_none() && r.provider != *auditor {
            let block = describe_response(r);
            blocks.push(block);
            assert(texts(blocks@) == before.push(block@));
        }
        i = i + 1;
    }
    assert(views.take(i as int) == views);
    blocks
}

pub(crate) fn count_valid(responses: &Vec<ModelResponse>) -> (n: usize)
    ensures
        n == valid_count(response_views(responses@)),
{
    let ghost views = response_views(responses@);
    let mut n: usize = 0;
    let mut i: usize = 0;
    assert(views.take(0).len() == 0);
    while i < responses.len()
        invariant
            i <= responses.len(),
            n <= i,
            views == response_views(responses@),
            n == valid_count(views.take(i as int)),
        decreases responses.len() - i,
    {
        proof {
            assert(views.take(i + 1).drop_last() == views.take(i as int));
            assert(views.take(i + 1).last() == responses@[i as int]@);
        }
        if responses[i].error.is_none() {
            n = n + 1;
        }
        i = i + 1;
    }
    assert(views.take(i as int) == views);
    n
}

/// The calls of the second round.
pub fn plan_audits(
    providers: &Vec<&ProviderConfig>,
    responses: &Vec<ModelResponse>,
    prompt: &str,
    timeout_secs: u64,
) -> (requests: Vec<Request>)
    ensures
        request_views(requests@) == audit_requests(
            provider_views(providers@),
            response_views(responses@),
            prompt@,
            timeout_secs,
        ),
{
    let ghost views = provider_views(providers@);
    let ghost answers = response_views(responses@);
    let mut requests: Vec<Request> = Vec::new();
    assert(request_views(requests@) == Seq::<RequestView>::empty());
    if count_valid(responses) < 2 {
        return requests;
    }
    let mut at: usize = 0;
    while at < providers.len()
        invariant
            at <= providers.len(),
            views == provider_views(providers@),
            answers == response_views(responses@),
            request_views(requests@) == audits_upto(
                views,
                at as int,
                answers,
                prompt@,
                timeout_secs,
            ),
        decreases providers.len() - at,
    {
        let provider = providers[at];
        assert(views[at as int] == provider@);
        let blocks = collect_blocks(responses, &provider.name);
        let ghost before = request_views(requests@);
        assert(texts(blocks@).len() == blocks@.len());
        if blocks.len() > 0 {
            let mut user = "ORIGINAL TASK:\n".to_owned();
            user.append(prompt);
            user.append("\n\nRESPONSES TO AUDIT:\n");
            assert(texts(blocks@).take(blocks@.len() as int) == texts(blocks@));
            user.append(join(&blocks, blocks.len(), "\n\n").as_str());
            user.append("\n\nReview each response. Find errors, gaps, and improvements.");
            let request = Request {
                provider: at,
                messages: converse(AUDIT_SYSTEM, user.as_str()),
                temperature: Temperature::Low,
                max_tokens: provider.token_limit(3000),
                timeout_secs: provider.call_timeout(timeout_secs),
                stream: false,
            };
            assert(request@ == audit_request(views, at as int, answers, prompt@, timeout_secs));
            requests.push(request);
            assert(request_views(requests@) == before.push(request@));
        }
        at = at + 1;
    }
    requests
}

fn locate(providers: &Vec<&ProviderConfig>, name: &str) -> (at: usize)
    ensures
        at == find_name(provider_views(providers@), name@),
        at <= providers@.len(),
{
    let ghost views = provider_views(providers@);
    let wanted = name.to_owned();
    let mut at: usize = 0;
    assert(views.skip(0) == views);
    while at < providers.len()
        invariant
            at <= providers.len(),
            wanted@ == name@,
            views == provider_views(providers@),
            find_name(views, name@) == at + find_name(views.skip(at as int), name@),
        decreases providers.len() - at,
    {
        assert(views.skip(at as int).first() == providers@[at as int]@);
        if providers[at].name == wanted {
            return at;
        }
        assert(views.skip(at as int).drop_first() == views.skip(at + 1));
        at = at + 1;
    }
    at
}

fn append_answers(
    parts: &mut Vec<String>,
    responses: &Vec<ModelResponse>,
    between: &str,
)
    ensures
        texts(final(parts)@) == texts(old(parts)@) + answer_parts(
            response_views(responses@),
            between@,
        ),
{
    let ghost views = response_views(responses@);
    let ghost start = texts(parts@);
    let mut i: usize = 0;
    assert(views.take(0).len() == 0);
    assert(start + Seq::<Seq<char>>::empty() == start);
    while i < responses.len()
        invariant
            i <= responses.len(),
            views == response_views(responses@),
            texts(parts@) == start + answer_parts(views.take(i as int), between@),
        decreases responses.len() - i,
    {
        let r = &responses[i];
        let ghost before = texts(parts@);
        proof {
            assert(views.take(i + 1).drop_last() == views.take(i as int));
            assert(views.take(i + 1).last() == r@);
        }
        if r.error.is_none() {
            let mut part = "\n".to_owned();
            part.append(r.label.as_str());
            part.append(between);
            part.append(r.content.as_str());
            parts.push(part);
            assert(texts(parts@) == before.push(part@));
            assert(before.push(part@) == start + answer_parts(
                views.take(i as int),
                between@,
            ).push(part@));
        }
        i = i + 1;
    }
    assert(views.take(i as int) == views);
}

fn gather_parts(
    prompt: &str,
    responses: &Vec<ModelResponse>,
    audits: &Vec<ModelResponse>,
) -> (parts: Vec<String>)
    ensures
        texts(parts@) == synthesis_parts(
            prompt@,
            response_views(responses@),
            response_views(audits@),
        ),
{
    let mut task = "ORIGINAL TASK:\n".to_owned();
    task.append(prompt);
    task.append("\n");
    let mut parts: Vec<String> = Vec::new();
    parts.push(task);
    parts.push("\n--- MODEL RESPONSES ---".to_owned());
    assert(texts(parts@) == seq![
        "ORIGINAL TASK:\n"@ + prompt@ + "\n"@,
        "\n--- MODEL RESPONSES ---"@,
    ]);
    append_answers(&mut parts, responses, ":\n");
    let ghost before = texts(parts@);
    parts.push("\n\n--- CROSS-AUDIT FEEDBACK ---".to_owned());
    assert(texts(parts@) == before + seq!["\n\n--- CROSS-AUDIT FEEDBACK ---"@]);
    append_answers(&mut parts, audits, " reviewed others:\n");
    parts
}

/// The response that a stream brought, where it brought one. A provider whose stream failed is
/// called again without a stream.
pub fn accept_stream(provider: &ProviderConfig, streamed: Option<StreamResponse>) -> (response:
    Option<ModelResponse>)
    ensures
        opt_response(response) == match streamed {
            Some(s) if s.error is None => Some(
                ResponseView {
                    provider: provider@.name,
                    label: provider@.display(),
                    model: provider@.model,
                    content: s.content@,
                    elapsed_secs: s.elapsed_secs@,
                    error: None,
                    tokens_used: s.tokens_used,
                },
            ),
            _ => None,
        },
{
    match streamed {
        Some(s) => if s.error.is_none() {
            Some(
                ModelResponse {
                    provider: provider.name.clone(),
                    label: provider.display_name().to_owned(),
                    model: provider.model.clone(),
                    content: s.content,
                    elapsed_secs: s.elapsed_secs,
                    error: None,
                    tokens_used: s.tokens_used,
                },
            )
        } else {
            None
        },
        None => None,
    }
}

/// Every round keeps a debate well formed.
pub proof fn law_rounds_keep_well_formed(
    debate: DebateView,
    list: Seq<ResponseView>,
    response: ResponseView,
)
    requires
        debate.wf(),
    ensures
        debate.phase == Phase::Responding ==> responded(debate, list).wf(),
        debate.phase == Phase::Auditing ==> audited(debate, list).wf(),
        debate.phase == Phase::Synthesising ==> synthesised(debate, response).wf(),
{
}

/// A quick debate is over after the responses, a general one after the audits; any other goes on to
/// a synthesis. Nothing is in the result of a round that was not held.
pub proof fn law_rounds_of_a_mode(
    providers: Seq<ProviderView>,
    mode: DebateMode,
    prompt: Seq<char>,
    timeout_secs: u64,
    responses: Seq<ResponseView>,
    audits: Seq<ResponseView>,
    response: ResponseView,
)
    ensures
        ({
            let first = responded(opening(providers, mode, prompt, timeout_secs), responses);
            let second = audited(first, audits);
            let third = synthesised(second, response);
            match mode {
                DebateMode::Quick => first.phase == Phase::Finished && first.audits.len() == 0
                    && first.synthesis is None && first.responses == responses,
                DebateMode::General => first.phase == Phase::Auditing && second.phase
                    == Phase::Finished && second.synthesis is None && second.responses == responses
                    && second.audits == audits,
                _ => first.phase == Phase::Auditing && second.phase == Phase::Synthesising
                    && third.phase == Phase::Finished && third.responses == responses
                    && third.audits == audits && third.synthesis == Some(cleaned(response)),
            }
        }),
{
}

/// The number of calls of a debate.
pub open spec fn call_count(
    providers: Seq<ProviderView>,
    mode: DebateMode,
    prompt: Seq<char>,
    timeout_secs: u64,
    max_tokens: u32,
    stream: bool,
    responses: Seq<ResponseView>,
) -> nat {
    let first = first_requests(providers, mode, prompt, timeout_secs, max_tokens, stream);
    first.len() + if after_responses(mode) == Phase::Auditing {
        audit_requests(providers, responses, prompt, timeout_secs).len() + if after_audits(mode)
            == Phase::Synthesising {
            1nat
        } else {
            0nat
        }
    } else {
        0nat
    }
}

/// Whether every provider has a response without error among the responses.
pub open spec fn all_answered(
    providers: Seq<ProviderView>,
    responses: Seq<ResponseView>,
) -> bool {
    forall|i: int|
        0 <= i < providers.len() ==> exists|k: int|
            0 <= k < responses.len() && (#[trigger] responses[k]).error is None
                && responses[k].provider == (#[trigger] providers[i]).name
}

/// An auditor reads every response of the others that has no error.
pub proof fn law_auditors_read_all_others(
    responses: Seq<ResponseView>,
    auditor: Seq<char>,
    k: int,
)
    requires
        0 <= k < responses.len(),
        responses[k].error is None,
        responses[k].provider != auditor,
    ensures
        audit_blocks(responses, auditor).contains(audit_block(responses[k])),
    decreases responses.len(),
{
    let blocks = audit_blocks(responses, auditor);
    if k < responses.len() - 1 {
        let rest = responses.drop_last();
        assert(rest[k] == responses[k]);
        law_auditors_read_all_others(rest, auditor, k);
        let before = audit_blocks(rest, auditor);
        let i = before.index_of(audit_block(responses[k]));
        assert(blocks[i] == audit_block(responses[k]));
    } else {
        assert(blocks[blocks.len() - 1] == audit_block(responses[k]));
    }
}

proof fn lemma_answer_part(responses: Seq<ResponseView>, between: Seq<char>, k: int)
    requires
        0 <= k < responses.len(),
        responses[k].error is None,
    ensures
        answer_parts(responses, between).contains(
            "\n"@ + responses[k].label + between + responses[k].content,
        ),
    decreases responses.len(),
{
    let wanted = "\n"@ + responses[k].label + between + responses[k].content;
    let parts = answer_parts(responses, between);
    if k < responses.len() - 1 {
        let rest = responses.drop_last();
        assert(rest[k] == responses[k]);
        lemma_answer_part(rest, between, k);
        let i = answer_parts(rest, between).index_of(wanted);
        assert(parts[i] == wanted);
    } else {
        assert(parts[parts.len() - 1] == wanted);
    }
}

/// The synthesis reads the task, every response without error and every audit without error.
pub proof fn law_synthesis_reads_everything(
    prompt: Seq<char>,
    responses: Seq<ResponseView>,
    audits: Seq<ResponseView>,
    k: int,
)
    ensures
        ({
            let parts = synthesis_parts(prompt, responses, audits);
            &&& parts[0] == "ORIGINAL TASK:\n"@ + prompt + "\n"@
            &&& 0 <= k < responses.len() && responses[k].error is None ==> parts.contains(
                "\n"@ + responses[k].label + ":\n"@ + responses[k].content,
            )
            &&& 0 <= k < audits.len() && audits[k].error is None ==> parts.contains(
                "\n"@ + audits[k].label + " reviewed others:\n"@ + audits[k].content,
            )
        }),
{
    let parts = synthesis_parts(prompt, responses, audits);
    let answers = answer_parts(responses, ":\n"@);
    let reviews = answer_parts(audits, " reviewed others:\n"@);
    if 0 <= k < responses.len() && responses[k].error is None {
        let wanted = "\n"@ + responses[k].label + ":\n"@ + responses[k].content;
        lemma_answer_part(responses, ":\n"@, k);
        assert(parts[2 + answers.index_of(wanted)] == wanted);
    }
    if 0 <= k < audits.len() && audits[k].error is None {
        let wanted = "\n"@ + audits[k].label + " reviewed others:\n"@ + audits[k].content;
        lemma_answer_part(audits, " reviewed others:\n"@, k);
        assert(parts[3 + answers.len() + reviews.index_of(wanted)] == wanted);
    }
}

proof fn lemma_valid_count(responses: Seq<ResponseView>, k: int)
    requires
        0 <= k < responses.len(),
        responses[k].error is None,
    ensures
        valid_count(responses) >= 1,
    decreases responses.len(),
{
    if k < responses.len() - 1 {
        assert(responses.drop_last()[k] == responses[k]);
        lemma_valid_count(responses.drop_last(), k);
    }
}

proof fn lemma_two_valid(responses: Seq<ResponseView>, k: int, l: int)
    requires
        0 <= k < l < responses.len(),
        responses[k].error is None,
        responses[l].error is None,
    ensures
        valid_count(responses) >= 2,
    decreases responses.len(),
{
    let rest = responses.drop_last();
    assert(rest[k] == responses[k]);
    if l < responses.len() - 1 {
        assert(rest[l] == responses[l]);
        lemma_two_valid(rest, k, l);
    } else {
        lemma_valid_count(rest, k);
    }
}

proof fn lemma_everyone_audits(
    providers: Seq<ProviderView>,
    count: int,
    responses: Seq<ResponseView>,
    prompt: Seq<char>,
    timeout_secs: u64,
)
    requires
        0 <= count <= providers.len(),
        forall|i: int|
            0 <= i < providers.len() ==> audit_blocks(
                responses,
                (#[trigger] providers[i]).name,
            ).len() > 0,
    ensures
        audits_upto(providers, count, responses, prompt, timeout_secs).len() == count,
        forall|i: int|
            0 <= i < count ==> #[trigger] audits_upto(
                providers,
                count,
                responses,
                prompt,
                timeout_secs,
            )[i] == audit_request(providers, i, responses, prompt, timeout_secs),
    decreases count,
{
    if count > 0 {
        lemma_everyone_audits(providers, count - 1, responses, prompt, timeout_secs);
        assert(audit_blocks(responses, providers[count - 1].name).len() > 0);
    }
}

/// Where all providers have names of their own and answer without error, each of them audits the
/// others. A debate between `n` of them then takes `n` calls in quick mode, `2n` in general mode
/// and `2n + 1` otherwise.
pub proof fn law_number_of_calls(
    providers: Seq<ProviderView>,
    mode: DebateMode,
    prompt: Seq<char>,
    timeout_secs: u64,
    max_tokens: u32,
    stream: bool,
    responses: Seq<ResponseView>,
)
    requires
        providers.len() >= 2,
        forall|i: int, j: int|
            0 <= i < j < providers.len() ==> (#[trigger] providers[i]).name != (
            #[trigger] providers[j]).name,
        all_answered(providers, responses),
    ensures
        audit_requests(providers, responses, prompt, timeout_secs) == Seq::new(
            providers.len(),
            |i: int| audit_request(providers, i, responses, prompt, timeout_secs),
        ),
        call_count(providers, mode, prompt, timeout_secs, max_tokens, stream, responses) == match mode {
            DebateMode::Quick => providers.len(),
            DebateMode::General => 2 * providers.len(),
            _ => 2 * providers.len() + 1,
        },
{
    assert forall|i: int| 0 <= i < providers.len() implies audit_blocks(
        responses,
        (#[trigger] providers[i]).name,
    ).len() > 0 by {
        let other: int = if i == 0 {
            1
        } else {
            0
        };
        assert(providers[other].name != providers[i].name);
        let k = choose|k: int|
            0 <= k < responses.len() && (#[trigger] responses[k]).error is None
                && responses[k].provider == providers[other].name;
        law_auditors_read_all_others(responses, providers[i].name, k);
    }
    let k = choose|k: int|
        0 <= k < responses.len() && (#[trigger] responses[k]).error is None && responses[k].provider
            == providers[0].name;
    let l = choose|l: int|
        0 <= l < responses.len() && (#[trigger] responses[l]).error is None && responses[l].provider
            == providers[1].name;
    assert(providers[0].name != providers[1].name);
    if k < l {
        lemma_two_valid(responses, k, l);
    } else {
        lemma_two_valid(responses, l, k);
    }
    lemma_everyone_audits(providers, providers.len() as int, responses, prompt, timeout_secs);
    assert(audit_requests(providers, responses, prompt, timeout_secs) == Seq::new(
        providers.len(),
        |i: int| audit_request(providers, i, responses, prompt, timeout_secs),
    ));
}

proof fn lemma_audit_timeouts(
    providers: Seq<ProviderView>,
    count: int,
    responses: Seq<ResponseView>,
    prompt: Seq<char>,
    timeout_secs: u64,
)
    requires
        count <= providers.len(),
    ensures
        forall|i: int|
            #![trigger audits_upto(providers, count, responses, prompt, timeout_secs)[i]]
            0 <= i < audits_upto(providers, count, responses, prompt, timeout_secs).len()
                ==> in_time(
                providers,
                audits_upto(providers, count, responses, prompt, timeout_secs)[i],
                timeout_secs,
            ),
    decreases count,
{
    if count > 0 {
        lemma_audit_timeouts(providers, count - 1, responses, prompt, timeout_secs);
        let before = audits_upto(providers, count - 1, responses, prompt, timeout_secs);
        let all = audits_upto(providers, count, responses, prompt, timeout_secs);
        assert forall|i: int| 0 <= i < all.len() implies in_time(
            providers,
            #[trigger] all[i],
            timeout_secs,
        ) by {
            if i < before.len() {
                assert(all[i] == before[i]);
            }
        }
    }
}

/// Whether a call goes to one of the providers and has the timeout of that provider, or
/// `timeout_secs` where it has none of its own.
pub open spec fn in_time(
    providers: Seq<ProviderView>,
    request: RequestView,
    timeout_secs: u64,
) -> bool {
    0 <= request.provider < providers.len() && request.timeout_secs == match
    providers[request.provider].timeout_secs {
        Some(own) => own,
        None => timeout_secs,
    }
}

/// Every call of a debate has the timeout of the provider that it goes to, or that of the
/// configuration where the provider has none of its own.
pub proof fn law_a_provider_sets_its_timeout(
    debate: DebateView,
    max_tokens: u32,
    stream: bool,
    responses: Seq<ResponseView>,
    best: Option<Seq<char>>,
    i: int,
)
    requires
        debate.wf(),
    ensures
        ({
            let first = first_requests(
                debate.providers,
                debate.mode,
                debate.prompt,
                debate.timeout_secs,
                max_tokens,
                stream,
            );
            let second = audit_requests(
                debate.providers,
                responses,
                debate.prompt,
                debate.timeout_secs,
            );
            &&& 0 <= i < first.len() ==> in_time(debate.providers, first[i], debate.timeout_secs)
            &&& 0 <= i < second.len() ==> in_time(debate.providers, second[i], debate.timeout_secs)
            &&& in_time(debate.providers, synthesis_call(debate, best), debate.timeout_secs)
        }),
{
    lemma_audit_timeouts(
        debate.providers,
        debate.providers.len() as int,
        responses,
        debate.prompt,
        debate.timeout_secs,
    );
    match best {
        Some(name) => {
            law_synthesiser(debate.providers, name);
        },
        None => {},
    }
}

/// An auditor reads responses of others only, and none with an error.
pub proof fn law_nobody_audits_itself(responses: Seq<ResponseView>, auditor: Seq<char>, at: int)
    requires
        0 <= at < audit_blocks(responses, auditor).len(),
    ensures
        exists|k: int|
            0 <= k < responses.len() && (#[trigger] responses[k]).error is None
                && responses[k].provider != auditor && audit_blocks(responses, auditor)[at]
                == audit_block(responses[k]),
    decreases responses.len(),
{
    let rest = responses.drop_last();
    let before = audit_blocks(rest, auditor);
    if at < before.len() {
        law_nobody_audits_itself(rest, auditor, at);
        let k = choose|k: int|
            0 <= k < rest.len() && (#[trigger] rest[k]).error is None && rest[k].provider
                != auditor && before[at] == audit_block(rest[k]);
        assert(responses[k] == rest[k]);
    } else {
        assert(responses[responses.len() - 1] == responses.last());
    }
}

/// The synthesis goes to the provider with the best record where it takes part, the first of that
/// name, and to the first provider otherwise.
pub proof fn law_synthesiser(providers: Seq<ProviderView>, name: Seq<char>)
    requires
        providers.len() > 0,
    ensures
        0 <= synthesiser(providers, Some(name)) < providers.len(),
        (exists|i: int| 0 <= i < providers.len() && (#[trigger] providers[i]).name == name)
            ==> providers[synthesiser(providers, Some(name))].name == name,
        forall|i: int|
            0 <= i < synthesiser(providers, Some(name)) ==> (#[trigger] providers[i]).name != name,
        (forall|i: int| 0 <= i < providers.len() ==> (#[trigger] providers[i]).name != name)
            ==> synthesiser(providers, Some(name)) == 0,
        synthesiser(providers, None) == 0,
{
    lemma_find_name(providers, name);
}

/// Where the providers were scored, and the one with the highest score takes part, the synthesis
/// goes to a provider with that name.
pub proof fn law_highest_score_synthesises(
    providers: Seq<ProviderView>,
    scores: Seq<ProviderScore>,
)
    requires
        scores.len() > 0,
        forall|i: int| 0 <= i < scores.len() ==> !not_a_number((#[trigger] scores[i]).score.bits),
        exists|i: int|
            0 <= i < providers.len() && (#[trigger] providers[i]).name == scores[best_place(
                scores,
                scores.len() as int,
            )].provider@,
    ensures
        ({
            let best = scores[best_place(scores, scores.len() as int)];
            &&& providers[synthesiser(providers, Some(best.provider@))].name == best.provider@
            &&& forall|i: int|
                0 <= i < scores.len() ==> place((#[trigger] scores[i]).score.bits) <= place(
                    best.score.bits,
                )
        }),
{
    law_best_provider_is_the_last_maximum(scores, scores.len() as int);
    law_synthesiser(providers, scores[best_place(scores, scores.len() as int)].provider@);
}

proof fn lemma_find_name(providers: Seq<ProviderView>, name: Seq<char>)
    ensures
        0 <= find_name(providers, name) <= providers.len(),
        find_name(providers, name) < providers.len() ==> providers[find_name(providers, name)].name
            == name,
        forall|i: int|
            0 <= i < find_name(providers, name) && i < providers.len() ==> (
            #[trigger] providers[i]).name != name,
    decreases providers.len(),
{
    if providers.len() > 0 && providers.first().name != name {
        let rest = providers.drop_first();
        lemma_find_name(rest, name);
        assert forall|i: int|
            0 <= i < find_name(providers, name) && i < providers.len() implies (
        #[trigger] providers[i]).name != name by {
            if i > 0 {
                assert(rest[i - 1] == providers[i]);
            }
        }
    }
}

// What the rounds ask.

/// In the first round every provider is asked once, in order: it is told what its mode tells it,
/// and asked the prompt as it is. Its own limit of tokens comes before that of the debate, and its
/// answer is read while it arrives where that is asked for and the provider has a key.
pub proof fn law_what_the_first_round_asks(
    providers: Seq<ProviderView>,
    mode: DebateMode,
    prompt: Seq<char>,
    timeout_secs: u64,
    max_tokens: u32,
    stream: bool,
    i: int,
)
    ensures
        ({
            let first = first_requests(providers, mode, prompt, timeout_secs, max_tokens, stream);
            &&& first.len() == providers.len()
            &&& 0 <= i < first.len() ==> {
                let r = first[i];
                &&& r.provider == i
                &&& r.messages.len() == 2
                &&& r.messages[0].role == "system"@
                &&& r.messages[0].content == system_text(mode)
                &&& r.messages[1].role == "user"@
                &&& r.messages[1].content == prompt
                &&& r.temperature == Temperature::Requested
                &&& providers[i].max_tokens is Some ==> Some(r.max_tokens) == providers[i].max_tokens
                &&& providers[i].max_tokens is None ==> r.max_tokens == max_tokens
                &&& r.stream <==> stream && providers[i].api_key.len() > 0
            }
        }),
{
}

/// Whether a response is one that an auditor with a name reads: it has no error, and is not its
/// own.
pub open spec fn is_for_auditor(responses: Seq<ResponseView>, name: Seq<char>) -> spec_fn(int) -> bool {
    |k: int| responses[k].error is None && responses[k].provider != name
}

/// Whether there is anything to read for an auditor with a name.
pub open spec fn others_answered(responses: Seq<ResponseView>, name: Seq<char>) -> bool {
    exists|k: int|
        0 <= k < responses.len() && (#[trigger] responses[k]).error is None && responses[k].provider
            != name
}

/// The text under which an auditor reads a response.
pub open spec fn shown_to_auditors(responses: Seq<ResponseView>, kept: Seq<int>) -> Seq<Seq<char>> {
    Seq::new(
        kept.len(),
        |j: int|
            "--- "@ + responses[kept[j]].label + " RESPONSE ---\n"@ + responses[kept[j]].content,
    )
}

proof fn lemma_audit_blocks(responses: Seq<ResponseView>, name: Seq<char>) -> (kept: Seq<int>)
    ensures
        picks(kept, responses.len() as int, is_for_auditor(responses, name)),
        audit_blocks(responses, name) == shown_to_auditors(responses, kept),
    decreases responses.len(),
{
    if responses.len() == 0 {
        assert(audit_blocks(responses, name) == shown_to_auditors(responses, Seq::empty()));
        Seq::empty()
    } else {
        let rest = responses.drop_last();
        let n = rest.len() as int;
        let before = lemma_audit_blocks(rest, name);
        let keep = is_for_auditor(responses, name);
        assert forall|i: int| 0 <= i < n implies #[trigger] keep(i) == is_for_auditor(rest, name)(
            i,
        ) by {
            assert(rest[i] == responses[i]);
        }
        lemma_picks_more(before, n, is_for_auditor(rest, name), keep);
        let kept = if keep(n) {
            before.push(n)
        } else {
            before
        };
        assert forall|j: int| 0 <= j < before.len() implies #[trigger] rest[before[j]]
            == responses[before[j]] by {
            assert(0 <= before[j] < n);
        }
        assert(audit_blocks(responses, name) =~= shown_to_auditors(responses, kept));
        kept
    }
}

/// An auditor reads the whole task and, in order, every response of the others that has no error:
/// each of them with its label and all of its text, and nothing of its own.
pub proof fn law_what_an_auditor_reads(
    providers: Seq<ProviderView>,
    responses: Seq<ResponseView>,
    prompt: Seq<char>,
    timeout_secs: u64,
    i: int,
) -> (kept: Seq<int>)
    requires
        0 <= i < audit_requests(providers, responses, prompt, timeout_secs).len(),
    ensures
        ({
            let r = audit_requests(providers, responses, prompt, timeout_secs)[i];
            let own = providers[r.provider];
            &&& 0 <= r.provider < providers.len()
            &&& picks(kept, responses.len() as int, is_for_auditor(responses, own.name))
            &&& kept.len() > 0
            &&& r.messages.len() == 2
            &&& r.messages[0].role == "system"@
            &&& r.messages[0].content == AUDIT_SYSTEM@
            &&& r.messages[1].role == "user"@
            &&& r.messages[1].content == "ORIGINAL TASK:\n"@ + prompt + "\n\nRESPONSES TO AUDIT:\n"@
                + joined(shown_to_auditors(responses, kept), "\n\n"@)
                + "\n\nReview each response. Find errors, gaps, and improvements."@
            &&& r.temperature == Temperature::Low
            &&& own.max_tokens is Some ==> Some(r.max_tokens) == own.max_tokens
            &&& own.max_tokens is None ==> r.max_tokens == 3000
            &&& !r.stream
        }),
{
    lemma_audits_upto(providers, providers.len() as int, responses, prompt, timeout_secs, i);
    let at = audit_requests(providers, responses, prompt, timeout_secs)[i].provider;
    lemma_audit_blocks(responses, providers[at].name)
}

proof fn lemma_audits_upto(
    providers: Seq<ProviderView>,
    count: int,
    responses: Seq<ResponseView>,
    prompt: Seq<char>,
    timeout_secs: u64,
    i: int,
)
    requires
        0 <= count <= providers.len(),
        0 <= i < audits_upto(providers, count, responses, prompt, timeout_secs).len(),
    ensures
        ({
            let r = audits_upto(providers, count, responses, prompt, timeout_secs)[i];
            &&& 0 <= r.provider < count
            &&& r == audit_request(providers, r.provider, responses, prompt, timeout_secs)
            &&& audit_blocks(responses, providers[r.provider].name).len() > 0
        }),
    decreases count,
{
    if count > 0 {
        let before = audits_upto(providers, count - 1, responses, prompt, timeout_secs);
        if i < before.len() {
            lemma_audits_upto(providers, count - 1, responses, prompt, timeout_secs, i);
        }
    }
}

/// The prompt stands whole at the start of what an auditor is asked, and so does the label and the
/// text of each response of the others somewhere behind it, however long they are.
pub proof fn law_auditors_see_everything(
    providers: Seq<ProviderView>,
    responses: Seq<ResponseView>,
    prompt: Seq<char>,
    timeout_secs: u64,
    i: int,
    k: int,
)
    requires
        0 <= i < audit_requests(providers, responses, prompt, timeout_secs).len(),
        0 <= k < responses.len(),
    ensures
        ({
            let r = audit_requests(providers, responses, prompt, timeout_secs)[i];
            let asked = r.messages[1].content;
            &&& ("ORIGINAL TASK:\n"@ + prompt).is_prefix_of(asked)
            &&& responses[k].error is None && responses[k].provider != providers[r.provider].name
                ==> occurs(
                asked,
                "--- "@ + responses[k].label + " RESPONSE ---\n"@ + responses[k].content,
            )
        }),
{
    let kept = law_what_an_auditor_reads(providers, responses, prompt, timeout_secs, i);
    let r = audit_requests(providers, responses, prompt, timeout_secs)[i];
    let asked = r.messages[1].content;
    let shown = shown_to_auditors(responses, kept);
    let head = "ORIGINAL TASK:\n"@ + prompt;
    let start = head + "\n\nRESPONSES TO AUDIT:\n"@;
    let end = "\n\nReview each response. Find errors, gaps, and improvements."@;
    assert(asked == start + joined(shown, "\n\n"@) + end);
    assert(asked.subrange(0, head.len() as int) == head);
    if is_for_auditor(responses, providers[r.provider].name)(k) {
        let j = kept.index_of(k);
        law_joined_parts_occur(shown, "\n\n"@, j);
        lemma_occurs_within(start, joined(shown, "\n\n"@), end, shown[j]);
    }
}

/// Whether a provider has something to audit.
pub open spec fn can_audit(
    providers: Seq<ProviderView>,
    responses: Seq<ResponseView>,
) -> spec_fn(int) -> bool {
    |p: int| others_answered(responses, providers[p].name)
}

/// Where two responses have no error, every provider audits once, in order, that has a response of
/// another to read. Otherwise nobody audits.
pub proof fn law_who_audits(
    providers: Seq<ProviderView>,
    responses: Seq<ResponseView>,
    prompt: Seq<char>,
    timeout_secs: u64,
) -> (who: Seq<int>)
    ensures
        ({
            let requests = audit_requests(providers, responses, prompt, timeout_secs);
            if exists|a: int, b: int|
                0 <= a < b < responses.len() && (#[trigger] responses[a]).error is None && (
                #[trigger] responses[b]).error is None {
                &&& picks(who, providers.len() as int, can_audit(providers, responses))
                &&& requests.len() == who.len()
                &&& forall|j: int|
                    0 <= j < who.len() ==> (#[trigger] requests[j]).provider == who[j]
            } else {
                requests.len() == 0
            }
        }),
{
    let kept = law_valid_responses_are_counted(responses);
    if valid_count(responses) >= 2 {
        assert(is_valid(responses)(kept[0]));
        assert(is_valid(responses)(kept[1]));
        assert(kept[0] < kept[1]);
        assert(responses[kept[0]].error is None && responses[kept[1]].error is None);
        lemma_who_audits(providers, providers.len() as int, responses, prompt, timeout_secs)
    } else {
        if exists|a: int, b: int|
            0 <= a < b < responses.len() && (#[trigger] responses[a]).error is None && (
            #[trigger] responses[b]).error is None {
            let (a, b) = choose|a: int, b: int|
                0 <= a < b < responses.len() && (#[trigger] responses[a]).error is None && (
                #[trigger] responses[b]).error is None;
            lemma_two_valid(responses, a, b);
        }
        Seq::empty()
    }
}

proof fn lemma_who_audits(
    providers: Seq<ProviderView>,
    count: int,
    responses: Seq<ResponseView>,
    prompt: Seq<char>,
    timeout_secs: u64,
) -> (who: Seq<int>)
    requires
        0 <= count <= providers.len(),
    ensures
        picks(who, count, can_audit(providers, responses)),
        audits_upto(providers, count, responses, prompt, timeout_secs).len() == who.len(),
        forall|j: int|
            #![trigger audits_upto(providers, count, responses, prompt, timeout_secs)[j]]
            0 <= j < who.len() ==> audits_upto(
                providers,
                count,
                responses,
                prompt,
                timeout_secs,
            )[j].provider == who[j],
    decreases count,
{
    let keep = can_audit(providers, responses);
    if count == 0 {
        Seq::empty()
    } else {
        let n = count - 1;
        let before = lemma_who_audits(providers, n, responses, prompt, timeout_secs);
        lemma_picks_more(before, n, keep, keep);
        let name = providers[n].name;
        let kept = lemma_audit_blocks(responses, name);
        if kept.len() > 0 {
            assert(is_for_auditor(responses, name)(kept[0]));
            assert(responses[kept[0]].error is None);
        }
        if others_answered(responses, name) {
            let k = choose|k: int|
                0 <= k < responses.len() && (#[trigger] responses[k]).error is None
                    && responses[k].provider != name;
            assert(is_for_auditor(responses, name)(k));
            assert(kept.contains(k));
        }
        assert(keep(n) == (audit_blocks(responses, name).len() > 0));
        if keep(n) {
            before.push(n)
        } else {
            before
        }
    }
}

/// Whether a response has no error.
pub open spec fn is_valid(responses: Seq<ResponseView>) -> spec_fn(int) -> bool {
    |k: int| responses[k].error is None
}

/// The number of responses without error is that of the places at which there is one.
pub proof fn law_valid_responses_are_counted(responses: Seq<ResponseView>) -> (kept: Seq<int>)
    ensures
        picks(kept, responses.len() as int, is_valid(responses)),
        valid_count(responses) == kept.len(),
    decreases responses.len(),
{
    if responses.len() == 0 {
        Seq::empty()
    } else {
        let rest = responses.drop_last();
        let n = rest.len() as int;
        let before = law_valid_responses_are_counted(rest);
        let keep = is_valid(responses);
        assert forall|i: int| 0 <= i < n implies #[trigger] keep(i) == is_valid(rest)(i) by {
            assert(rest[i] == responses[i]);
        }
        lemma_picks_more(before, n, is_valid(rest), keep);
        if keep(n) {
            before.push(n)
        } else {
            before
        }
    }
}

/// The texts of responses, each behind its label and what stands between the two.
pub open spec fn shown_to_synthesis(
    responses: Seq<ResponseView>,
    kept: Seq<int>,
    between: Seq<char>,
) -> Seq<Seq<char>> {
    Seq::new(
        kept.len(),
        |j: int| "\n"@ + responses[kept[j]].label + between + responses[kept[j]].content,
    )
}

proof fn lemma_answer_parts(responses: Seq<ResponseView>, between: Seq<char>) -> (kept: Seq<int>)
    ensures
        picks(kept, responses.len() as int, is_valid(responses)),
        answer_parts(responses, between) == shown_to_synthesis(responses, kept, between),
    decreases responses.len(),
{
    if responses.len() == 0 {
        assert(answer_parts(responses, between) == shown_to_synthesis(
            responses,
            Seq::empty(),
            between,
        ));
        Seq::empty()
    } else {
        let rest = responses.drop_last();
        let n = rest.len() as int;
        let before = lemma_answer_parts(rest, between);
        let keep = is_valid(responses);
        assert forall|i: int| 0 <= i < n implies #[trigger] keep(i) == is_valid(rest)(i) by {
            assert(rest[i] == responses[i]);
        }
        lemma_picks_more(before, n, is_valid(rest), keep);
        let kept = if keep(n) {
            before.push(n)
        } else {
            before
        };
        assert forall|j: int| 0 <= j < before.len() implies #[trigger] rest[before[j]]
            == responses[before[j]] by {
            assert(0 <= before[j] < n);
        }
        assert(answer_parts(responses, between) =~= shown_to_synthesis(responses, kept, between));
        kept
    }
}

/// The synthesis reads the whole task and, in order, every response and every audit without error:
/// each of them with its label and all of its text. It is asked of the provider with the best
/// record where that takes part, with its own limit of tokens.
pub proof fn law_what_the_synthesis_reads(debate: DebateView, best: Option<Seq<char>>) -> (kept: (
    Seq<int>,
    Seq<int>,
))
    ensures
        ({
            let r = synthesis_call(debate, best);
            let own = debate.providers[r.provider];
            let (answers, reviews) = kept;
            &&& picks(answers, debate.responses.len() as int, is_valid(debate.responses))
            &&& picks(reviews, debate.audits.len() as int, is_valid(debate.audits))
            &&& r.provider == synthesiser(debate.providers, best)
            &&& r.messages.len() == 2
            &&& r.messages[0].role == "system"@
            &&& r.messages[0].content == SYNTHESIS_SYSTEM@
            &&& r.messages[1].role == "user"@
            &&& r.messages[1].content == joined(
                seq!["ORIGINAL TASK:\n"@ + debate.prompt + "\n"@, "\n--- MODEL RESPONSES ---"@]
                    + shown_to_synthesis(debate.responses, answers, ":\n"@) + seq![
                    "\n\n--- CROSS-AUDIT FEEDBACK ---"@,
                ] + shown_to_synthesis(debate.audits, reviews, " reviewed others:\n"@),
                "\n"@,
            )
            &&& r.temperature == Temperature::Low
            &&& own.max_tokens is Some ==> Some(r.max_tokens) == own.max_tokens
            &&& own.max_tokens is None ==> r.max_tokens == 4096
            &&& !r.stream
        }),
{
    let answers = lemma_answer_parts(debate.responses, ":\n"@);
    let reviews = lemma_answer_parts(debate.audits, " reviewed others:\n"@);
    (answers, reviews)
}

/// The prompt stands whole at the start of what the synthesis is asked, and the label and the text
/// of each response and each audit without error stand somewhere behind it, however long they are.
pub proof fn law_the_synthesis_sees_everything(
    debate: DebateView,
    best: Option<Seq<char>>,
    k: int,
)
    ensures
        ({
            let asked = synthesis_call(debate, best).messages[1].content;
            &&& ("ORIGINAL TASK:\n"@ + debate.prompt).is_prefix_of(asked)
            &&& 0 <= k < debate.responses.len() && debate.responses[k].error is None ==> occurs(
                asked,
                "\n"@ + debate.responses[k].label + ":\n"@ + debate.responses[k].content,
            )
            &&& 0 <= k < debate.audits.len() && debate.audits[k].error is None ==> occurs(
                asked,
                "\n"@ + debate.audits[k].label + " reviewed others:\n"@ + debate.audits[k].content,
            )
        }),
{
    let (answers, reviews) = law_what_the_synthesis_reads(debate, best);
    let asked = synthesis_call(debate, best).messages[1].content;
    let first = "ORIGINAL TASK:\n"@ + debate.prompt + "\n"@;
    let rest = seq!["\n--- MODEL RESPONSES ---"@] + shown_to_synthesis(
        debate.responses,
        answers,
        ":\n"@,
    ) + seq!["\n\n--- CROSS-AUDIT FEEDBACK ---"@] + shown_to_synthesis(
        debate.audits,
        reviews,
        " reviewed others:\n"@,
    );
    let parts = seq![first] + rest;
    assert(parts =~= seq![first, "\n--- MODEL RESPONSES ---"@] + shown_to_synthesis(
        debate.responses,
        answers,
        ":\n"@,
    ) + seq!["\n\n--- CROSS-AUDIT FEEDBACK ---"@] + shown_to_synthesis(
        debate.audits,
        reviews,
        " reviewed others:\n"@,
    ));
    lemma_joined_from_front(first, rest, "\n"@);
    let head = "ORIGINAL TASK:\n"@ + debate.prompt;
    assert(asked.subrange(0, head.len() as int) == head);
    if 0 <= k < debate.responses.len() && is_valid(debate.responses)(k) {
        let j = answers.index_of(k);
        assert(parts[2 + j] == shown_to_synthesis(debate.responses, answers, ":\n"@)[j]);
        law_joined_parts_occur(parts, "\n"@, 2 + j);
    }
    if 0 <= k < debate.audits.len() && is_valid(debate.audits)(k) {
        let j = reviews.index_of(k);
        assert(parts[3 + answers.len() + j] == shown_to_synthesis(
            debate.audits,
            reviews,
            " reviewed others:\n"@,
        )[j]);
        law_joined_parts_occur(parts, "\n"@, 3 + answers.len() + j);
    }
}

/// No round changes what was asked, who takes part, or what earlier rounds brought. The result
/// holds what all of them brought.
pub proof fn law_rounds_keep_what_is_there(
    debate: DebateView,
    list: Seq<ResponseView>,
    response: ResponseView,
    total_secs: RealView,
)
    ensures
        ({
            let first = responded(debate, list);
            let second = audited(debate, list);
            let third = synthesised(debate, response);
            let result = result_of(debate, total_secs);
            &&& first.prompt == debate.prompt && second.prompt == debate.prompt && third.prompt
                == debate.prompt
            &&& first.providers == debate.providers && second.providers == debate.providers
                && third.providers == debate.providers
            &&& first.mode == debate.mode && second.mode == debate.mode && third.mode == debate.mode
            &&& first.timeout_secs == debate.timeout_secs && second.timeout_secs
                == debate.timeout_secs && third.timeout_secs == debate.timeout_secs
            &&& first.responses == list && second.responses == debate.responses && third.responses
                == debate.responses
            &&& first.audits == debate.audits && second.audits == list && third.audits
                == debate.audits
            &&& result.responses == debate.responses && result.audits == debate.audits
                && result.synthesis == debate.synthesis && result.total_secs == total_secs
            &&& result.mode == mode_text(debate.mode)
        }),
{
}

/// A synthesis is kept but for the award in its text. One with an error is kept as it is, and
/// awards nobody.
pub proof fn law_a_synthesis_is_kept(debate: DebateView, response: ResponseView)
    ensures
        synthesised(debate, response).synthesis matches Some(kept) && {
            &&& kept.provider == response.provider && kept.label == response.label && kept.model
                == response.model
            &&& kept.elapsed_secs == response.elapsed_secs && kept.error == response.error
                && kept.tokens_used == response.tokens_used
            &&& response.error is Some ==> kept.content == response.content && award(response) is None
            &&& response.error is None ==> (award(response), kept.content) == parsed_best(
                response.content,
            )
        },
{
}

/// A debate opens with the prompt, the mode, the timeout and the providers that it was given, and
/// with nothing said.
pub proof fn law_how_a_debate_opens(
    providers: Seq<ProviderView>,
    mode: DebateMode,
    prompt: Seq<char>,
    timeout_secs: u64,
)
    ensures
        ({
            let debate = opening(providers, mode, prompt, timeout_secs);
            &&& debate.prompt == prompt && debate.mode == mode && debate.providers == providers
            &&& debate.timeout_secs == timeout_secs
            &&& debate.responses.len() == 0 && debate.audits.len() == 0 && debate.synthesis is None
            &&& debate.phase == Phase::Responding
        }),
{
}

/// The providers of a debate are those that the configuration offers under the names, in its order,
/// each with all of its settings.
pub proof fn law_who_takes_part(config: Config, names: Option<&[String]>) -> (kept: Seq<int>)
    ensures
        picks(kept, config.providers@.len() as int, is_named(config.providers@, name_list(names))),
        chosen_views(config, names).len() == kept.len(),
        forall|j: int|
            0 <= j < kept.len() ==> #[trigger] chosen_views(config, names)[j]
                == config.providers@[kept[j]]@,
{
    let kept = law_providers_are_chosen_in_order(config.providers@, name_list(names));
    assert forall|j: int| 0 <= j < kept.len() implies #[trigger] chosen_views(config, names)[j]
        == config.providers@[kept[j]]@ by {
        assert(chosen(config.providers@, name_list(names))[j] == config.providers@[kept[j]]);
    }
    kept
}

/// The mathematical values of calls and debates hold all that these hold, as it is and in order.
pub proof fn law_round_views_hold_everything(
    r: Request,
    requests: Seq<Request>,
    debate: Debate,
    i: int,
)
    ensures
        r@.provider == r.provider && r@.temperature == r.temperature && r@.max_tokens
            == r.max_tokens && r@.timeout_secs == r.timeout_secs && r@.stream == r.stream,
        r@.messages.len() == r.messages@.len(),
        0 <= i < r.messages@.len() ==> r@.messages[i] == r.messages@[i]@,
        request_views(requests).len() == requests.len(),
        0 <= i < requests.len() ==> request_views(requests)[i] == requests[i]@,
        debate@.mode == debate.mode && debate@.prompt == debate.prompt@ && debate@.timeout_secs
            == debate.timeout_secs && debate@.phase == debate.phase,
        debate@.providers.len() == debate.providers@.len(),
        0 <= i < debate.providers@.len() ==> debate@.providers[i] == debate.providers@[i]@,
        debate@.responses.len() == debate.responses@.len(),
        0 <= i < debate.responses@.len() ==> debate@.responses[i] == debate.responses@[i]@,
        debate@.audits.len() == debate.audits@.len(),
        0 <= i < debate.audits@.len() ==> debate@.audits[i] == debate.audits@[i]@,
        debate.synthesis is None ==> debate@.synthesis is None,
        debate.synthesis matches Some(s) ==> debate@.synthesis == Some(s@),
{
}

} // verus!
