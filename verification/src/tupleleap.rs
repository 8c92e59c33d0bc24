//! The chat-completion model client: the request it sends, and what it makes of the replies.
use vstd::prelude::*;

use crate::prompt::{args_view, Message, MessageType};
use crate::text::{decimal_i64, spec_decimal};

verus! {

/// The role of a message in a chat-completion request.
#[derive(Debug, Clone, Copy, PartialEq, Eq, Structural)]
pub enum MessageRole {
    User,
    System,
    Assistant,
}

/// The role under which a message of the given type is sent: AI and tool messages go as the
/// assistant, system messages as the system, human messages as the user.
pub open spec fn spec_role(t: MessageType) -> MessageRole {
    match t {
        MessageType::AIMessage => MessageRole::Assistant,
        MessageType::ToolMessage => MessageRole::Assistant,
        MessageType::SystemMessage => MessageRole::System,
        MessageType::HumanMessage => MessageRole::User,
    }
}

impl MessageRole {
    pub fn from_message_type(t: MessageType) -> (r: MessageRole)
        ensures
            r == spec_role(t),
    {
        match t {
            MessageType::AIMessage => MessageRole::Assistant,
            MessageType::ToolMessage => MessageRole::Assistant,
            MessageType::SystemMessage => MessageRole::System,
            MessageType::HumanMessage => MessageRole::User,
        }
    }
}

/// A message of a chat-completion request: its text, its role and the sender's name.
pub struct ChatMessage {
    pub content: String,
    pub role: MessageRole,
    pub name: Option<String>,
}

/// The optional string's view.
pub open spec fn opt_view(o: Option<String>) -> Option<Seq<char>> {
    match o {
        Some(s) => Some(s@),
        None => None,
    }
}

/// `cm` carries the text, the role and the id of `m`.
pub open spec fn converts(m: Message, cm: ChatMessage) -> bool {
    &&& cm.content@ == m.content@
    &&& cm.role == spec_role(m.message_type)
    &&& opt_view(cm.name) == opt_view(m.id)
}

/// Law: a converted message sends the source message's text unchanged, whatever its type,
/// under the source's id as its name; human messages go as the user, system messages as the
/// system, AI and tool messages as the assistant.
pub proof fn lemma_conversion_keeps_message(m: Message, cm: ChatMessage)
    requires
        converts(m, cm),
    ensures
        cm.content@ == m.content@,
        opt_view(cm.name) == opt_view(m.id),
        m.message_type == MessageType::HumanMessage ==> cm.role == MessageRole::User,
        m.message_type == MessageType::SystemMessage ==> cm.role == MessageRole::System,
        m.message_type == MessageType::AIMessage ==> cm.role == MessageRole::Assistant,
        m.message_type == MessageType::ToolMessage ==> cm.role == MessageRole::Assistant,
{
}

/// Law: the texts sent in a request whose messages are converted from `messages` are the
/// texts of `messages`, in the same order.
pub proof fn lemma_request_keeps_texts(messages: Seq<Message>, sent: Seq<ChatMessage>)
    requires
        sent.len() == messages.len(),
        forall|i: int| 0 <= i < messages.len() ==> converts(messages[i], #[trigger] sent[i]),
    ensures
        sent.map_values(|c: ChatMessage| c.content@) == messages.map_values(
            |m: Message| m.content@,
        ),
{
    assert(sent.map_values(|c: ChatMessage| c.content@) =~= messages.map_values(
        |m: Message| m.content@,
    ));
}

impl ChatMessage {
    pub fn from_message(m: &Message) -> (r: ChatMessage)
        ensures
            converts(*m, r),
    {
        let name = match &m.id {
            Some(id) => Some(id.clone()),
            None => None,
        };
        ChatMessage {
            content: m.content.clone(),
            role: MessageRole::from_message_type(m.message_type),
            name,
        }
    }
}

/// A chat-completion request: the model and the messages.
pub struct ChatRequest {
    pub model: String,
    pub messages: Vec<ChatMessage>,
}

/// Token counts of a reply.
pub struct TokenUsage {
    pub prompt_tokens: u32,
    pub completion_tokens: u32,
    pub total_tokens: u32,
}

/// What a model generated.
pub struct GenerateResult {
    pub generation: String,
    pub tokens: Option<TokenUsage>,
}

/// Why a model call gave no result.
pub enum LLMError {
    /// The reply was not usable.
    ApiError(String),
    /// A streamed chunk carried no text.
    ContentNotFound(String),
}

/// A client of a chat-completion service with the model it asks.
pub struct Tupleleap<C> {
    pub client: C,
    pub model: String,
}

impl<C> Tupleleap<C> {
    pub fn new(client: C, model: String) -> (r: Self)
        ensures
            r.client == client,
            r.model == model,
    {
        Tupleleap { client, model }
    }

    /// The same client, asking another model.
    pub fn with_model(self, model: String) -> (r: Self)
        ensures
            r.client == self.client,
            r.model == model,
    {
        let mut s = self;
        s.model = model;
        s
    }

    /// The request for `messages`: this client's model, and each message converted.
    pub fn generate_request(&self, messages: &[Message]) -> (r: ChatRequest)
        ensures
            r.model@ == self.model@,
            r.messages@.len() == messages@.len(),
            forall|i: int|
                0 <= i < messages@.len() ==> converts(messages@[i], #[trigger] r.messages@[i]),
    {
        let mut mapped: Vec<ChatMessage> = Vec::new();
        let n = messages.len();
        for i in 0..n
            invariant
                n == messages@.len(),
                mapped@.len() == i,
                forall|j: int| 0 <= j < i ==> converts(messages@[j], #[trigger] mapped@[j]),
        {
            mapped.push(ChatMessage::from_message(&messages[i]));
        }
        ChatRequest { model: self.model.clone(), messages: mapped }
    }
}

/// The result of a chat-completion reply whose choices carry the texts `choices` (`None` for
/// a choice without text): the text of the first choice, with the token counts cut to 32 bits.
/// Fails when there is no choice or the first one has no text.
pub fn generate_result(
    choices: &Vec<Option<String>>,
    prompt_tokens: i64,
    completion_tokens: i64,
    total_tokens: i64,
) -> (r: Result<GenerateResult, LLMError>)
    ensures
        choices@.len() == 0 ==> (r matches Err(LLMError::ApiError(msg)) && msg@
            == "zero choices returned"@),
        choices@.len() > 0 && choices@[0] is None ==> (r matches Err(LLMError::ApiError(msg))
            && msg@ == "No message in response"@),
        choices@.len() > 0 && choices@[0] is Some ==> (r matches Ok(g) && g.generation@
            == choices@[0]->0@ && (g.tokens matches Some(t) && t.prompt_tokens
            == prompt_tokens as u32 && t.completion_tokens == completion_tokens as u32
            && t.total_tokens == total_tokens as u32)),
{
    if choices.len() == 0 {
        return Err(LLMError::ApiError(String::from_str("zero choices returned")));
    }
    let generation = match &choices[0] {
        Some(msg) => msg,
        None => {
            return Err(LLMError::ApiError(String::from_str("No message in response")));
        },
    };
    Ok(
        GenerateResult {
            generation: generation.clone(),
            tokens: Some(
                TokenUsage {
                    prompt_tokens: prompt_tokens as u32,
                    completion_tokens: completion_tokens as u32,
                    total_tokens: total_tokens as u32,
                },
            ),
        },
    )
}

/// A JSON value, as the serialization crate holds it.
#[verifier::external_type_specification]
#[verifier::external_body]
pub struct ExJsonValue(serde_json::Value);

/// A streamed piece of a reply: metadata about the chunk, and its text.
pub struct StreamData {
    pub value: serde_json::Value,
    pub content: String,
}

/// The JSON value that serializing a string map holding `pairs` gives.
pub uninterp spec fn json_object(pairs: Seq<(Seq<char>, Seq<char>)>) -> serde_json::Value;

/// Keys of the pairs differ.
pub open spec fn distinct_pair_keys(pairs: Seq<(Seq<char>, Seq<char>)>) -> bool {
    forall|i: int, j: int|
        0 <= i < pairs.len() && 0 <= j < pairs.len() && i != j ==> #[trigger] pairs[i].0
            != #[trigger] pairs[j].0
}

/// Calls `serde_json::to_value` on the string map that holds `pairs` (whose keys differ, so
/// that the map holds each pair), with JSON null where serialization fails; for a map of
/// strings it does not. The value depends on the pairs alone.
#[verifier::external_body]
fn json_object_of(pairs: Vec<(String, String)>) -> (r: serde_json::Value)
    requires
        distinct_pair_keys(args_view(pairs@)),
    ensures
        r == json_object(args_view(pairs@)),
{
    serde_json::to_value(pairs.into_iter().collect::<std::collections::HashMap<String, String>>())
        .unwrap_or_default()
}

/// The metadata of a streamed chunk: when it was created, in decimal, and by which model.
pub open spec fn spec_stream_metadata(created: i64, model: Seq<char>) -> Seq<
    (Seq<char>, Seq<char>),
> {
    seq![("created"@, spec_decimal(created as int)), ("model"@, model)]
}

/// The metadata pairs of a streamed chunk.
pub fn stream_metadata(created: i64, model: String) -> (r: Vec<(String, String)>)
    ensures
        args_view(r@) == spec_stream_metadata(created, model@),
        distinct_pair_keys(args_view(r@)),
{
    let mut r: Vec<(String, String)> = Vec::new();
    r.push((String::from_str("created"), decimal_i64(created)));
    r.push((String::from_str("model"), model));
    proof {
        reveal_strlit("created");
        reveal_strlit("model");
        assert(args_view(r@) =~= spec_stream_metadata(created, model@));
        assert("created"@.len() != "model"@.len());
    }
    r
}

/// A streamed chunk whose choices carry the texts `choices`, created at `created` by `model`:
/// the text of its first choice, with the chunk's metadata. Fails when the first choice has
/// no text.
pub fn stream_data(choices: &Vec<Option<String>>, created: i64, model: String) -> (r: Result<
    StreamData,
    LLMError,
>)
    requires
        choices@.len() > 0,
    ensures
        choices@[0] matches Some(c) ==> (r matches Ok(d) && d.content@ == c@ && d.value
            == json_object(spec_stream_metadata(created, model@))),
        choices@[0] is None ==> (r matches Err(LLMError::ContentNotFound(msg)) && msg@
            == "No message in response"@),
{
    let content = match stream_content(choices) {
        Ok(c) => c,
        Err(e) => {
            return Err(e);
        },
    };
    Ok(StreamData { value: json_object_of(stream_metadata(created, model)), content })
}

/// The text of a streamed chunk whose choices carry the texts `choices`: that of the first
/// choice. Fails when the first choice has no text.
pub fn stream_content(choices: &Vec<Option<String>>) -> (r: Result<String, LLMError>)
    requires
        choices@.len() > 0,
    ensures
        choices@[0] matches Some(c) ==> (r matches Ok(s) && s@ == c@),
        choices@[0] is None ==> (r matches Err(LLMError::ContentNotFound(msg)) && msg@
            == "No message in response"@),
{
    match &choices[0] {
        Some(c) => Ok(c.clone()),
        None => Err(LLMError::ContentNotFound(String::from_str("No message in response"))),
    }
}

} // verus!
