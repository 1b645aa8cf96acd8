//! The provider abstraction: requests, responses, errors, and the decisions a
//! provider makes around its HTTP call (credentials, status codes, bodies).
//! The call itself is made by the caller of this library.

use vstd::prelude::*;
use crate::model::{LLMConfig, LLMProvider};

verus! {

/// A generation request. The temperature is in thousandths (700 is 0.7).
#[derive(Debug, Clone)]
pub struct GenerationRequest {
    pub prompt: String,
    pub system_prompt: Option<String>,
    pub max_tokens: Option<u32>,
    pub temperature_milli: Option<u32>,
}

/// A generation response.
#[derive(Debug, Clone)]
pub struct GenerationResponse {
    pub content: String,
    pub model: String,
    pub tokens_used: Option<u32>,
}

/// Errors of a provider call.
#[derive(Debug, Clone)]
pub enum LLMError {
    RequestFailed(String),
    InvalidApiKey,
    RateLimited,
    ModelNotFound(String),
    NetworkError(String),
    ParseError(String),
}

/// The one-sentence description of an error.
pub open spec fn error_text(e: LLMError) -> Seq<char> {
    match e {
        LLMError::RequestFailed(m) => "API request failed: "@ + m@,
        LLMError::InvalidApiKey => "Invalid API key"@,
        LLMError::RateLimited => "Rate limited"@,
        LLMError::ModelNotFound(m) => "Model not found: "@ + m@,
        LLMError::NetworkError(m) => "Network error: "@ + m@,
        LLMError::ParseError(m) => "Parse error: "@ + m@,
    }
}

impl LLMError {
    /// The one-sentence description of the error.
    pub fn to_string(&self) -> (r: String)
        ensures
            r@ == error_text(*self),
    {
        match self {
            LLMError::RequestFailed(m) => {
                let mut r = String::from_str("API request failed: ");
                r.append(m.as_str());
                r
            },
            LLMError::InvalidApiKey => String::from_str("Invalid API key"),
            LLMError::RateLimited => String::from_str("Rate limited"),
            LLMError::ModelNotFound(m) => {
                let mut r = String::from_str("Model not found: ");
                r.append(m.as_str());
                r
            },
            LLMError::NetworkError(m) => {
                let mut r = String::from_str("Network error: ");
                r.append(m.as_str());
                r
            },
            LLMError::ParseError(m) => {
                let mut r = String::from_str("Parse error: ");
                r.append(m.as_str());
                r
            },
        }
    }
}

/// The hosted chat provider with an `x-api-key` credential.
#[derive(Debug, Clone)]
pub struct AnthropicProvider {
    pub api_key: Option<String>,
    pub model: String,
}

impl AnthropicProvider {
    pub fn new(api_key: Option<String>, model: String) -> (r: AnthropicProvider)
        ensures
            r.api_key == api_key && r.model == model,
    {
        AnthropicProvider { api_key, model }
    }
}

/// The hosted chat provider with a bearer credential.
#[derive(Debug, Clone)]
pub struct OpenAIProvider {
    pub api_key: Option<String>,
    pub model: String,
}

impl OpenAIProvider {
    pub fn new(api_key: Option<String>, model: String) -> (r: OpenAIProvider)
        ensures
            r.api_key == api_key && r.model == model,
    {
        OpenAIProvider { api_key, model }
    }
}

/// The local provider, which needs no credential.
#[derive(Debug, Clone)]
pub struct OllamaProvider {
    pub model: String,
}

impl OllamaProvider {
    pub fn new(model: String) -> (r: OllamaProvider)
        ensures
            r.model == model,
    {
        OllamaProvider { model }
    }
}

/// A concrete provider, chosen by the factory from a provider tag.
#[derive(Debug, Clone)]
pub enum Provider {
    Anthropic(AnthropicProvider),
    OpenAI(OpenAIProvider),
    Ollama(OllamaProvider),
}

pub open spec fn provider_name(p: Provider) -> Seq<char> {
    match p {
        Provider::Anthropic(_) => "Anthropic"@,
        Provider::OpenAI(_) => "OpenAI"@,
        Provider::Ollama(_) => "Ollama"@,
    }
}

pub open spec fn provider_configured(p: Provider) -> bool {
    match p {
        Provider::Anthropic(a) => a.api_key is Some,
        Provider::OpenAI(o) => o.api_key is Some,
        Provider::Ollama(_) => true,
    }
}

impl Provider {
    /// Human-readable name of the provider.
    pub fn name(&self) -> (r: &'static str)
        ensures
            r@ == provider_name(*self),
    {
        match self {
            Provider::Anthropic(_) => "Anthropic",
            Provider::OpenAI(_) => "OpenAI",
            Provider::Ollama(_) => "Ollama",
        }
    }

    /// Whether the provider has what it needs to be called: a credential for
    /// the hosted providers; always for the local one.
    pub fn is_configured(&self) -> (r: bool)
        ensures
            r == provider_configured(*self),
    {
        match self {
            Provider::Anthropic(a) => a.api_key.is_some(),
            Provider::OpenAI(o) => o.api_key.is_some(),
            Provider::Ollama(_) => true,
        }
    }

    /// The tag of the provider.
    pub fn kind(&self) -> (r: LLMProvider)
        ensures
            r == (match *self {
                Provider::Anthropic(_) => LLMProvider::Anthropic,
                Provider::OpenAI(_) => LLMProvider::OpenAI,
                Provider::Ollama(_) => LLMProvider::Ollama,
            }),
    {
        match self {
            Provider::Anthropic(_) => LLMProvider::Anthropic,
            Provider::OpenAI(_) => LLMProvider::OpenAI,
            Provider::Ollama(_) => LLMProvider::Ollama,
        }
    }
}

/// The provider named by the configuration's tag, with its model and the
/// given credential (which the local provider does not take).
pub open spec fn provider_for(config: LLMConfig, api_key: Option<String>) -> Provider {
    match config.provider {
        LLMProvider::Anthropic => Provider::Anthropic(AnthropicProvider { api_key, model: config.model }),
        LLMProvider::OpenAI => Provider::OpenAI(OpenAIProvider { api_key, model: config.model }),
        LLMProvider::Ollama => Provider::Ollama(OllamaProvider { model: config.model }),
    }
}

/// Creates the provider named by the configuration's tag.
pub fn create_provider(config: &LLMConfig, api_key: Option<String>) -> (r: Provider)
    ensures
        r == provider_for(*config, api_key),
{
    match config.provider {
        LLMProvider::Anthropic => Provider::Anthropic(
            AnthropicProvider::new(api_key, config.model.clone()),
        ),
        LLMProvider::OpenAI => Provider::OpenAI(OpenAIProvider::new(api_key, config.model.clone())),
        LLMProvider::Ollama => Provider::Ollama(OllamaProvider::new(config.model.clone())),
    }
}

/// The error a provider reports for an HTTP status, or `None` for a success
/// (2xx). Hosted providers: 401 is `InvalidApiKey`, 429 `RateLimited`.
/// Local provider: 404 is `ModelNotFound`. Any other failure is
/// `RequestFailed`, with the server's own message where one could be read
/// from the body, else `fallback` (the status and the raw body).
pub open spec fn status_error_spec(
    kind: LLMProvider,
    status: u16,
    model: String,
    server_message: Option<String>,
    fallback: String,
) -> Option<LLMError> {
    if 200 <= status <= 299 {
        None
    } else {
        match kind {
            LLMProvider::Ollama => if status == 404 {
                Some(LLMError::ModelNotFound(model))
            } else {
                Some(LLMError::RequestFailed(fallback))
            },
            _ => if status == 401 {
                Some(LLMError::InvalidApiKey)
            } else if status == 429 {
                Some(LLMError::RateLimited)
            } else {
                match server_message {
                    Some(m) => Some(LLMError::RequestFailed(m)),
                    None => Some(LLMError::RequestFailed(fallback)),
                }
            },
        }
    }
}

/// Maps the status of a provider's HTTP response to its error, if any.
pub fn status_error(
    kind: LLMProvider,
    status: u16,
    model: String,
    server_message: Option<String>,
    fallback: String,
) -> (r: Option<LLMError>)
    ensures
        r == status_error_spec(kind, status, model, server_message, fallback),
{
    if 200 <= status && status <= 299 {
        return None;
    }
    match kind {
        LLMProvider::Ollama => if status == 404 {
            Some(LLMError::ModelNotFound(model))
        } else {
            Some(LLMError::RequestFailed(fallback))
        },
        _ => if status == 401 {
            Some(LLMError::InvalidApiKey)
        } else if status == 429 {
            Some(LLMError::RateLimited)
        } else {
            match server_message {
                Some(m) => Some(LLMError::RequestFailed(m)),
                None => Some(LLMError::RequestFailed(fallback)),
            }
        },
    }
}

/// The error for a request that could not be sent. For the local provider a
/// refused connection gets a hint to start the server.
pub fn connection_error(kind: LLMProvider, refused: bool, detail: String) -> (r: LLMError)
    ensures
        (kind == LLMProvider::Ollama && refused) ==> (r matches LLMError::NetworkError(m) && m@
            == "Cannot connect to Ollama. Make sure Ollama is running."@),
        !(kind == LLMProvider::Ollama && refused) ==> r == LLMError::NetworkError(detail),
{
    if kind == LLMProvider::Ollama && refused {
        LLMError::NetworkError(String::from_str("Cannot connect to Ollama. Make sure Ollama is running."))
    } else {
        LLMError::NetworkError(detail)
    }
}

/// The credential a hosted provider sends, or `InvalidApiKey` when it has
/// none. The local provider sends none.
pub fn credential(provider: &Provider) -> (r: Result<Option<String>, LLMError>)
    ensures
        match *provider {
            Provider::Anthropic(a) => match a.api_key {
                Some(k) => r == Ok::<Option<String>, LLMError>(Some(k)),
                None => r matches Err(LLMError::InvalidApiKey),
            },
            Provider::OpenAI(o) => match o.api_key {
                Some(k) => r == Ok::<Option<String>, LLMError>(Some(k)),
                None => r matches Err(LLMError::InvalidApiKey),
            },
            Provider::Ollama(_) => r == Ok::<Option<String>, LLMError>(None),
        },
{
    match provider {
        Provider::Anthropic(a) => match &a.api_key {
            Some(k) => Ok(Some(k.clone())),
            None => Err(LLMError::InvalidApiKey),
        },
        Provider::OpenAI(o) => match &o.api_key {
            Some(k) => Ok(Some(k.clone())),
            None => Err(LLMError::InvalidApiKey),
        },
        Provider::Ollama(_) => Ok(None),
    }
}

/// One message of a chat request.
#[derive(Debug, Clone)]
pub struct ChatMessage {
    pub role: String,
    pub content: String,
}

/// The token budget a hosted chat request carries: the request's, or 4096.
pub fn max_tokens_or_default(request: &GenerationRequest) -> (r: u32)
    ensures
        r == (match request.max_tokens {
            Some(t) => t,
            None => 4096u32,
        }),
{
    match request.max_tokens {
        Some(t) => t,
        None => 4096,
    }
}

/// The messages of a chat request: the system prompt first, as a `system`
/// message, when `with_system` and the request has one; then the prompt as
/// the `user` message.
pub fn chat_messages(request: &GenerationRequest, with_system: bool) -> (r: Vec<ChatMessage>)
    ensures
        (with_system && request.system_prompt is Some) ==> r@.len() == 2 && r@[0].role@ == "system"@
            && Some(r@[0].content) == request.system_prompt && r@[1].role@ == "user"@ && r@[1].content
            == request.prompt,
        !(with_system && request.system_prompt is Some) ==> r@.len() == 1 && r@[0].role@ == "user"@
            && r@[0].content == request.prompt,
{
    let mut r: Vec<ChatMessage> = Vec::new();
    if with_system {
        if let Some(system) = &request.system_prompt {
            r.push(ChatMessage { role: String::from_str("system"), content: system.clone() });
        }
    }
    r.push(ChatMessage { role: String::from_str("user"), content: request.prompt.clone() });
    r
}

/// The sum of two token counts, or `None` when it does not fit in `u32`.
pub open spec fn token_sum(a: u32, b: u32) -> Option<u32> {
    if a + b <= u32::MAX {
        Some((a + b) as u32)
    } else {
        None
    }
}

/// A response from the text of the first content block (empty when there is
/// none), the model, and the tokens counted by the two counters.
pub fn response_from_parts(texts: Vec<String>, model: String, first_count: u32, second_count: u32) -> (r: GenerationResponse)
    ensures
        texts@.len() > 0 ==> r.content == texts@[0],
        texts@.len() == 0 ==> r.content@.len() == 0,
        r.model == model,
        r.tokens_used == token_sum(first_count, second_count),
{
    let content = if texts.len() > 0 {
        texts[0].clone()
    } else {
        String::new()
    };
    let tokens_used = first_count.checked_add(second_count);
    GenerationResponse { content, model, tokens_used }
}

} // verus!
