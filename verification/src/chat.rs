//! The conversation with the model service: where it is reached, what is sent
//! to it, and what is read out of its replies.

use vstd::prelude::*;
use vstd::string::*;

use crate::binary64::{Binary64, ONE_BITS};
use crate::error::{ClassifyError, Failure};
use crate::text::{
    decimal, decimal_digits, texts, trim, trim_end_matches, trimmed, without_trailing,
};

verus! {

/// The path of the chat endpoint below the base URL.
pub const CHAT_PATH: &'static str = "/chat/completions";

/// How many tokens beyond its thinking budget the model may write.
pub const ANSWER_MARGIN: usize = 16;

/// The bits of the number 0.95.
pub const TOP_P_BITS: u64 = 0x3FEE_6666_6666_6666;

/// The model service: where it is, which model is asked by default, and the
/// key that it wants.
#[derive(Debug)]
pub struct Classifier {
    base_url: String,
    model: String,
    api_key: String,
}

impl Classifier {
    /// The base URL, without a slash at its end.
    pub closed spec fn base_url(&self) -> Seq<char> {
        self.base_url@
    }

    /// The model that is asked where a request names none.
    pub closed spec fn model(&self) -> Seq<char> {
        self.model@
    }

    /// The key; it is empty where none is sent.
    pub closed spec fn api_key(&self) -> Seq<char> {
        self.api_key@
    }

    #[verifier::type_invariant]
    spec fn no_trailing_slash(&self) -> bool {
        self.base_url@.len() > 0 ==> self.base_url@.last() != '/'
    }

    /// A service below `base_url`.
    pub fn new(base_url: String, model: String, api_key: String) -> (classifier: Classifier)
        ensures
            classifier.base_url() == without_trailing(base_url@, '/'),
            classifier.model() == model@,
            classifier.api_key() == api_key@,
    {
        proof {
            law_without_trailing(base_url@, '/');
        }
        Classifier { base_url: trim_end_matches(base_url.as_str(), '/'), model, api_key }
    }

    /// The model that is asked where a request names none.
    pub fn default_model(&self) -> (model: String)
        ensures
            model@ == self.model(),
    {
        self.model.clone()
    }

    /// The URL of a path of the service.
    pub fn endpoint(&self, path: &str) -> (url: String)
        ensures
            url@ == self.base_url() + path@,
            self.base_url().len() > 0 ==> self.base_url().last() != '/',
    {
        proof {
            use_type_invariant(self);
        }
        let mut url: String = self.base_url.clone();
        url.append(path);
        url
    }

    /// The bearer token to send, if any.
    pub fn bearer_token(&self) -> (token: Option<String>)
        ensures
            self.api_key().len() == 0 ==> token is None,
            self.api_key().len() > 0 ==> (token matches Some(key) && key@
                == self.api_key()),
    {
        if self.api_key.as_str().is_empty() {
            None
        } else {
            Some(self.api_key.clone())
        }
    }
}

impl Clone for Classifier {
    fn clone(&self) -> (copy: Self)
        ensures
            copy.base_url() == self.base_url(),
            copy.model() == self.model(),
            copy.api_key() == self.api_key(),
    {
        proof {
            use_type_invariant(self);
        }
        Classifier {
            base_url: self.base_url.clone(),
            model: self.model.clone(),
            api_key: self.api_key.clone(),
        }
    }
}

/// What is left after trailing characters are removed does not end in one.
pub proof fn law_without_trailing(text: Seq<char>, tail: char)
    ensures
        without_trailing(text, tail).len() > 0 ==> without_trailing(text, tail).last() != tail,
        without_trailing(text, tail).is_prefix_of(text),
        forall|i: int| without_trailing(text, tail).len() <= i < text.len() ==> text[i] == tail,
    decreases text.len(),
{
    if text.len() > 0 && text.last() == tail {
        law_without_trailing(text.drop_last(), tail);
        let kept = without_trailing(text.drop_last(), tail);
        assert(kept =~= text.subrange(0, kept.len() as int));
        assert forall|i: int| kept.len() <= i < text.len() implies text[i] == tail by {
            if i < text.len() - 1 {
                assert(text.drop_last()[i] == text[i]);
            }
        }
    } else {
        assert(text =~= text.subrange(0, text.len() as int));
    }
}

/// Whether a status says that a request succeeded.
pub open spec fn is_success(status: u16) -> bool {
    200 <= status < 300
}

/// Whether a reply with this status is read.
pub fn status_accepted(status: u16) -> (accepted: bool)
    ensures
        accepted == is_success(status),
{
    200 <= status && status < 300
}

/// The failure where the service cannot be reached.
pub fn unreachable_error(detail: &str) -> (error: ClassifyError)
    ensures
        error@ == Failure::Upstream("cannot reach vLLM: "@ + detail@),
{
    let mut message: String = "cannot reach vLLM: ".to_owned();
    message.append(detail);
    ClassifyError::Upstream(message)
}

/// The failure where the service answers with another status than success.
pub fn status_error(status: u16, detail: &str) -> (error: ClassifyError)
    ensures
        error@ == Failure::Upstream(
            "vLLM returned HTTP "@ + decimal_digits(status as nat) + ": "@ + detail@,
        ),
{
    let mut message: String = "vLLM returned HTTP ".to_owned();
    message.append(decimal(status as usize).as_str());
    message.append(": ");
    message.append(detail);
    ClassifyError::Upstream(message)
}

/// The failure where a reply cannot be decoded.
pub fn decoding_error(detail: &str) -> (error: ClassifyError)
    ensures
        error@ == Failure::Upstream("invalid vLLM response: "@ + detail@),
{
    let mut message: String = "invalid vLLM response: ".to_owned();
    message.append(detail);
    ClassifyError::Upstream(message)
}

/// What an answer of the service comes to: only one whose status says success
/// is read. `detail` is what another answer says, and `decoded` what came of
/// reading a successful one.
pub fn settle(status: u16, detail: &str, decoded: Result<ChatResponse, String>) -> (result: Result<
    ChatResponse,
    ClassifyError,
>)
    ensures
        if !is_success(status) {
            result matches Err(error) && error@ == Failure::Upstream(
                "vLLM returned HTTP "@ + decimal_digits(status as nat) + ": "@ + detail@,
            )
        } else {
            match decoded {
                Ok(response) => result matches Ok(reply) && reply == response,
                Err(reason) => result matches Err(error) && error@ == Failure::Upstream(
                    "invalid vLLM response: "@ + reason@,
                ),
            }
        },
{
    if !status_accepted(status) {
        return Err(status_error(status, detail));
    }
    match decoded {
        Ok(response) => Ok(response),
        Err(reason) => Err(decoding_error(reason.as_str())),
    }
}

/// One turn of a conversation.
#[derive(Debug)]
pub struct ChatMessage {
    pub role: String,
    pub content: String,
}

/// What a `ChatMessage` holds.
pub struct Turn {
    pub role: Seq<char>,
    pub content: Seq<char>,
}

impl View for ChatMessage {
    type V = Turn;

    open spec fn view(&self) -> Turn {
        Turn { role: self.role@, content: self.content@ }
    }
}

/// What each turn of a conversation holds.
pub open spec fn turns(messages: Seq<ChatMessage>) -> Seq<Turn> {
    messages.map_values(|message: ChatMessage| message@)
}

/// What is sent to have the model think about the question.
#[derive(Debug)]
pub struct ReasoningPayload {
    pub model: String,
    pub messages: Vec<ChatMessage>,
    pub enable_thinking: bool,
    pub preserve_thinking: bool,
    pub reasoning_effort: String,
    pub thinking_token_budget: usize,
    pub max_tokens: usize,
    pub temperature: Binary64,
    pub top_p: Binary64,
    pub top_k: usize,
}

/// What a `ReasoningPayload` holds.
#[verifier::ext_equal]
pub struct ReasoningCall {
    pub model: Seq<char>,
    pub messages: Seq<Turn>,
    pub enable_thinking: bool,
    pub preserve_thinking: bool,
    pub reasoning_effort: Seq<char>,
    pub thinking_token_budget: usize,
    pub max_tokens: usize,
    pub temperature: Binary64,
    pub top_p: Binary64,
    pub top_k: usize,
}

impl View for ReasoningPayload {
    type V = ReasoningCall;

    open spec fn view(&self) -> ReasoningCall {
        ReasoningCall {
            model: self.model@,
            messages: turns(self.messages@),
            enable_thinking: self.enable_thinking,
            preserve_thinking: self.preserve_thinking,
            reasoning_effort: self.reasoning_effort@,
            thinking_token_budget: self.thinking_token_budget,
            max_tokens: self.max_tokens,
            temperature: self.temperature,
            top_p: self.top_p,
            top_k: self.top_k,
        }
    }
}

/// What is sent to learn how the model would go on with its answer.
#[derive(Debug)]
pub struct TokenPayload {
    pub model: String,
    pub messages: Vec<ChatMessage>,
    pub add_generation_prompt: bool,
    pub continue_final_message: bool,
    pub enable_thinking: bool,
    pub max_tokens: usize,
    pub temperature: Binary64,
    pub logprobs: bool,
    pub top_logprobs: usize,
    /// The texts to which the model's output is held.
    pub choice: Vec<String>,
}

/// What a `TokenPayload` holds.
#[verifier::ext_equal]
pub struct TokenCall {
    pub model: Seq<char>,
    pub messages: Seq<Turn>,
    pub add_generation_prompt: bool,
    pub continue_final_message: bool,
    pub enable_thinking: bool,
    pub max_tokens: usize,
    pub temperature: Binary64,
    pub logprobs: bool,
    pub top_logprobs: usize,
    pub choice: Seq<Seq<char>>,
}

impl View for TokenPayload {
    type V = TokenCall;

    open spec fn view(&self) -> TokenCall {
        TokenCall {
            model: self.model@,
            messages: turns(self.messages@),
            add_generation_prompt: self.add_generation_prompt,
            continue_final_message: self.continue_final_message,
            enable_thinking: self.enable_thinking,
            max_tokens: self.max_tokens,
            temperature: self.temperature,
            logprobs: self.logprobs,
            top_logprobs: self.top_logprobs,
            choice: texts(self.choice@),
        }
    }
}

/// The call that has the model think about a prompt.
pub open spec fn reasoning_call(
    model: Seq<char>,
    prompt: Seq<char>,
    thinking_budget: usize,
) -> ReasoningCall {
    ReasoningCall {
        model,
        messages: seq![
            Turn {
                role: "system"@,
                content:
                    "Analyze the classification briefly. After thinking, return exactly one value from question.options without explanation."@,
            },
            Turn { role: "user"@, content: prompt },
        ],
        enable_thinking: true,
        preserve_thinking: false,
        reasoning_effort: "low"@,
        thinking_token_budget: thinking_budget,
        max_tokens: (thinking_budget + ANSWER_MARGIN) as usize,
        temperature: Binary64 { bits: ONE_BITS },
        top_p: Binary64 { bits: TOP_P_BITS },
        top_k: 20,
    }
}

/// The call that asks how the model would go on after `generated`, held to the
/// allowed texts.
pub open spec fn token_call(
    model: Seq<char>,
    prompt: Seq<char>,
    generated: Seq<char>,
    top_logprobs: usize,
    allowed: Seq<Seq<char>>,
) -> TokenCall {
    TokenCall {
        model,
        messages: seq![
            Turn {
                role: "system"@,
                content:
                    "You are a deterministic classifier. Do not explain or reason out loud. Complete the answer with exactly one allowed key."@,
            },
            Turn { role: "user"@, content: prompt },
            Turn { role: "assistant"@, content: "choice:"@ + generated },
        ],
        add_generation_prompt: false,
        continue_final_message: true,
        enable_thinking: false,
        max_tokens: 1,
        temperature: Binary64 { bits: 0 },
        logprobs: true,
        top_logprobs,
        choice: allowed,
    }
}

/// A turn of a conversation.
fn message(role: &str, content: &str) -> (turn: ChatMessage)
    ensures
        turn@ == (Turn { role: role@, content: content@ }),
{
    ChatMessage { role: role.to_owned(), content: content.to_owned() }
}

/// What to send to have the model think about a prompt.
pub fn reasoning_payload(model: &str, prompt: &str, thinking_budget: usize) -> (payload:
    ReasoningPayload)
    requires
        thinking_budget + ANSWER_MARGIN <= usize::MAX,
    ensures
        payload@ == reasoning_call(model@, prompt@, thinking_budget),
{
    let mut messages: Vec<ChatMessage> = Vec::new();
    messages.push(
        message(
            "system",
            "Analyze the classification briefly. After thinking, return exactly one value from question.options without explanation.",
        ),
    );
    messages.push(message("user", prompt));
    let payload: ReasoningPayload = ReasoningPayload {
        model: model.to_owned(),
        messages,
        enable_thinking: true,
        preserve_thinking: false,
        reasoning_effort: "low".to_owned(),
        thinking_token_budget: thinking_budget,
        max_tokens: thinking_budget + ANSWER_MARGIN,
        temperature: Binary64 { bits: ONE_BITS },
        top_p: Binary64 { bits: TOP_P_BITS },
        top_k: 20,
    };
    proof {
        assert(payload@ =~= reasoning_call(model@, prompt@, thinking_budget));
    }
    payload
}

/// What to send to learn how the model would go on after `generated`.
pub fn token_payload(
    model: &str,
    prompt: &str,
    generated: &str,
    top_logprobs: usize,
    allowed: Vec<String>,
) -> (payload: TokenPayload)
    ensures
        payload@ == token_call(model@, prompt@, generated@, top_logprobs, texts(allowed@)),
{
    let mut answer: String = "choice:".to_owned();
    answer.append(generated);
    let mut messages: Vec<ChatMessage> = Vec::new();
    messages.push(
        message(
            "system",
            "You are a deterministic classifier. Do not explain or reason out loud. Complete the answer with exactly one allowed key.",
        ),
    );
    messages.push(message("user", prompt));
    messages.push(message("assistant", answer.as_str()));
    let ghost allowed_texts = texts(allowed@);
    let payload: TokenPayload = TokenPayload {
        model: model.to_owned(),
        messages,
        add_generation_prompt: false,
        continue_final_message: true,
        enable_thinking: false,
        max_tokens: 1,
        temperature: Binary64 { bits: 0 },
        logprobs: true,
        top_logprobs,
        choice: allowed,
    };
    proof {
        assert(payload@ =~= token_call(model@, prompt@, generated@, top_logprobs, allowed_texts));
    }
    payload
}

/// A reply of the service.
#[derive(Debug)]
pub struct ChatResponse {
    pub choices: Vec<Choice>,
}

/// One of the completions in a reply.
#[derive(Debug)]
pub struct Choice {
    pub message: Option<Message>,
    pub logprobs: Option<Logprobs>,
}

/// What the model thought, under the two names that services use for it.
#[derive(Debug)]
pub struct Message {
    pub reasoning: Option<String>,
    pub reasoning_content: Option<String>,
}

/// The log probabilities of a completion.
#[derive(Debug)]
pub struct Logprobs {
    pub content: Vec<ContentLogprob>,
}

/// The log probabilities at one token.
#[derive(Debug)]
pub struct ContentLogprob {
    pub top_logprobs: Vec<TokenLogprob>,
}

/// A token that the model could have written, and its log probability.
#[derive(Debug)]
pub struct TokenLogprob {
    pub token: String,
    pub logprob: Binary64,
}

/// What a `TokenLogprob` holds.
pub struct Alternative {
    pub token: Seq<char>,
    pub logprob: Binary64,
}

impl View for TokenLogprob {
    type V = Alternative;

    open spec fn view(&self) -> Alternative {
        Alternative { token: self.token@, logprob: self.logprob }
    }
}

/// What each alternative of a list holds.
pub open spec fn alternatives(list: Seq<TokenLogprob>) -> Seq<Alternative> {
    list.map_values(|item: TokenLogprob| item@)
}

impl Message {
    /// What the model thought: the first of the two names that is present
    /// decides.
    pub open spec fn thought(&self) -> Option<Seq<char>> {
        match self.reasoning {
            Some(text) => Some(text@),
            None => match self.reasoning_content {
                Some(text) => Some(text@),
                None => None,
            },
        }
    }
}

/// The thoughts in a reply, or why there are none.
pub open spec fn reasoning_in(response: ChatResponse) -> Result<Seq<char>, Failure> {
    if response.choices@.len() == 0 || response.choices@[0].message is None {
        Err(Failure::Upstream("vLLM did not return a message"@))
    } else {
        match response.choices@[0].message->0.thought() {
            Some(text) if trimmed(text).len() > 0 => Ok(trimmed(text)),
            _ => Err(
                Failure::Upstream(
                    "vLLM did not return reasoning content; start it with --reasoning-parser qwen3"@,
                ),
            ),
        }
    }
}

/// The alternatives at the first token of a reply, or why there are none.
pub open spec fn alternatives_in(response: ChatResponse) -> Result<Seq<Alternative>, Failure> {
    if response.choices@.len() == 0 || response.choices@[0].logprobs is None
        || response.choices@[0].logprobs->0.content@.len() == 0 {
        Err(Failure::Upstream("vLLM did not return token logprobs"@))
    } else {
        let top = response.choices@[0].logprobs->0.content@[0].top_logprobs@;
        if top.len() == 0 {
            Err(Failure::Upstream("vLLM returned an empty top_logprobs list"@))
        } else {
            Ok(alternatives(top))
        }
    }
}

/// Reads the model's thoughts out of a reply.
pub fn read_reasoning(response: &ChatResponse) -> (result: Result<String, ClassifyError>)
    ensures
        match reasoning_in(*response) {
            Ok(text) => result matches Ok(reasoning) && reasoning@ == text,
            Err(failure) => result matches Err(error) && error@ == failure,
        },
{
    if response.choices.len() == 0 {
        return Err(ClassifyError::Upstream("vLLM did not return a message".to_owned()));
    }
    match &response.choices[0].message {
        None => Err(ClassifyError::Upstream("vLLM did not return a message".to_owned())),
        Some(message) => {
            let thought: Option<&String> = match &message.reasoning {
                Some(text) => Some(text),
                None => match &message.reasoning_content {
                    Some(text) => Some(text),
                    None => None,
                },
            };
            if let Some(text) = thought {
                let reasoning: String = trim(text.as_str());
                if !reasoning.as_str().is_empty() {
                    return Ok(reasoning);
                }
            }
            Err(
                ClassifyError::Upstream(
                    "vLLM did not return reasoning content; start it with --reasoning-parser qwen3".to_owned(),
                ),
            )
        },
    }
}

/// Reads the alternatives at the first token out of a reply.
pub fn read_alternatives(response: &ChatResponse) -> (result: Result<
    Vec<TokenLogprob>,
    ClassifyError,
>)
    ensures
        match alternatives_in(*response) {
            Ok(list) => result matches Ok(items) && alternatives(items@) == list,
            Err(failure) => result matches Err(error) && error@ == failure,
        },
{
    if response.choices.len() == 0 {
        return Err(ClassifyError::Upstream("vLLM did not return token logprobs".to_owned()));
    }
    match &response.choices[0].logprobs {
        None => Err(ClassifyError::Upstream("vLLM did not return token logprobs".to_owned())),
        Some(logprobs) => {
            if logprobs.content.len() == 0 {
                return Err(ClassifyError::Upstream("vLLM did not return token logprobs".to_owned()));
            }
            let top: &Vec<TokenLogprob> = &logprobs.content[0].top_logprobs;
            if top.len() == 0 {
                return Err(
                    ClassifyError::Upstream("vLLM returned an empty top_logprobs list".to_owned()),
                );
            }
            let mut items: Vec<TokenLogprob> = Vec::new();
            let mut i: usize = 0;
            while i < top.len()
                invariant
                    i <= top.len(),
                    items.len() == i,
                    forall|k: int| 0 <= k < i ==> (#[trigger] items@[k])@ == top@[k]@,
                decreases top.len() - i,
            {
                items.push(TokenLogprob { token: top[i].token.clone(), logprob: top[i].logprob });
                i = i + 1;
            }
            proof {
                assert(alternatives(items@) =~= alternatives(top@));
            }
            Ok(items)
        },
    }
}

/// The statuses of success are the two hundreds.
pub proof fn law_success(status: u16)
    ensures
        is_success(status) <==> status / 100 == 2,
{
}

/// The chat endpoint has the path that services of this kind give it.
pub proof fn law_chat_path()
    ensures
        CHAT_PATH@ == "/chat/completions"@,
{
}

/// The model is asked to think about the prompt that is given, within the
/// budget that is given and sixteen tokens more.
pub proof fn law_reasoning_call(model: Seq<char>, prompt: Seq<char>, thinking_budget: usize)
    requires
        thinking_budget + 16 <= usize::MAX,
    ensures
        ({
            let call = reasoning_call(model, prompt, thinking_budget);
            &&& call.model == model
            &&& call.messages.len() == 2
            &&& call.messages[0].role == "system"@
            &&& call.messages[0].content
                == "Analyze the classification briefly. After thinking, return exactly one value from question.options without explanation."@
            &&& call.messages[1].role == "user"@
            &&& call.messages[1].content == prompt
            &&& call.enable_thinking && !call.preserve_thinking
            &&& call.reasoning_effort == "low"@
            &&& call.thinking_token_budget == thinking_budget
            &&& call.max_tokens == thinking_budget + 16
            &&& call.temperature.bits == 0x3FF0_0000_0000_0000
            &&& call.top_p.bits == 0x3FEE_6666_6666_6666
            &&& call.top_k == 20
        }),
{
}

/// The model is asked for one more token of an answer that begins with what was
/// generated, with the number of alternatives that is given, and held to the
/// texts that are given.
pub proof fn law_token_call(
    model: Seq<char>,
    prompt: Seq<char>,
    generated: Seq<char>,
    top_logprobs: usize,
    allowed: Seq<Seq<char>>,
)
    ensures
        ({
            let call = token_call(model, prompt, generated, top_logprobs, allowed);
            &&& call.model == model
            &&& call.messages.len() == 3
            &&& call.messages[0].role == "system"@
            &&& call.messages[0].content
                == "You are a deterministic classifier. Do not explain or reason out loud. Complete the answer with exactly one allowed key."@
            &&& call.messages[1].role == "user"@
            &&& call.messages[1].content == prompt
            &&& call.messages[2].role == "assistant"@
            &&& call.messages[2].content == "choice:"@ + generated
            &&& !call.add_generation_prompt && call.continue_final_message && !call.enable_thinking
            &&& call.max_tokens == 1
            &&& call.temperature.bits == 0
            &&& call.logprobs
            &&& call.top_logprobs == top_logprobs
            &&& call.choice == allowed
        }),
{
}

/// The thoughts of a reply are those of its first completion: what stands under
/// the first of the two names that is present, trimmed. Without a message, or
/// without anything but white space there, there are none.
pub proof fn law_reasoning_in(response: ChatResponse)
    ensures
        ({
            let read = reasoning_in(response);
            let missing = Err::<Seq<char>, Failure>(
                Failure::Upstream(
                    "vLLM did not return reasoning content; start it with --reasoning-parser qwen3"@,
                ),
            );
            let speechless = Err::<Seq<char>, Failure>(
                Failure::Upstream("vLLM did not return a message"@),
            );
            &&& response.choices@.len() == 0 ==> read == speechless
            &&& response.choices@.len() > 0 ==> match response.choices@[0].message {
                None => read == speechless,
                Some(message) => {
                    &&& message.reasoning matches Some(text) ==> if trimmed(text@).len() > 0 {
                        read == Ok::<Seq<char>, Failure>(trimmed(text@))
                    } else {
                        read == missing
                    }
                    &&& message.reasoning is None ==> match message.reasoning_content {
                        Some(text) => if trimmed(text@).len() > 0 {
                            read == Ok::<Seq<char>, Failure>(trimmed(text@))
                        } else {
                            read == missing
                        },
                        None => read == missing,
                    }
                },
            }
        }),
{
}

/// The alternatives of a reply are those at the first token of its first
/// completion: all of them, in their order, with their own log probabilities.
pub proof fn law_alternatives_in(response: ChatResponse)
    ensures
        ({
            let read = alternatives_in(response);
            let missing = Err::<Seq<Alternative>, Failure>(
                Failure::Upstream("vLLM did not return token logprobs"@),
            );
            &&& response.choices@.len() == 0 ==> read == missing
            &&& response.choices@.len() > 0 ==> match response.choices@[0].logprobs {
                None => read == missing,
                Some(logprobs) => if logprobs.content@.len() == 0 {
                    read == missing
                } else {
                    let top = logprobs.content@[0].top_logprobs@;
                    if top.len() == 0 {
                        read == Err::<Seq<Alternative>, Failure>(
                            Failure::Upstream("vLLM returned an empty top_logprobs list"@),
                        )
                    } else {
                        &&& read matches Ok(list) && list.len() == top.len()
                        &&& forall|i: int|
                            0 <= i < top.len() ==> (#[trigger] read->Ok_0[i]).token == top[i].token@
                                && read->Ok_0[i].logprob == top[i].logprob
                    }
                },
            }
        }),
{
}

} // verus!
