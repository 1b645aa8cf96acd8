use needlepoint::model::{LLMConfig, LLMProvider};
use needlepoint::provider::{
    chat_messages, max_tokens_or_default, GenerationRequest,
    connection_error, create_provider, credential, response_from_parts, status_error, LLMError, Provider,
};

fn s(x: &str) -> String {
    x.to_string()
}

#[test]
fn hosted_status_mapping() {
    for kind in [LLMProvider::Anthropic, LLMProvider::OpenAI] {
        assert!(status_error(kind, 200, s("m"), None, s("f")).is_none());
        assert!(matches!(status_error(kind, 401, s("m"), None, s("f")), Some(LLMError::InvalidApiKey)));
        assert!(matches!(status_error(kind, 429, s("m"), None, s("f")), Some(LLMError::RateLimited)));
        assert!(matches!(status_error(kind, 500, s("m"), Some(s("overloaded")), s("f")), Some(LLMError::RequestFailed(m)) if m == "overloaded"));
        assert!(matches!(status_error(kind, 404, s("m"), None, s("HTTP 404 Not Found: x")), Some(LLMError::RequestFailed(m)) if m == "HTTP 404 Not Found: x"));
    }
}

#[test]
fn local_status_mapping() {
    assert!(matches!(status_error(LLMProvider::Ollama, 404, s("llama3"), None, s("f")), Some(LLMError::ModelNotFound(m)) if m == "llama3"));
    assert!(matches!(status_error(LLMProvider::Ollama, 401, s("llama3"), Some(s("x")), s("f")), Some(LLMError::RequestFailed(m)) if m == "f"));
    assert!(status_error(LLMProvider::Ollama, 204, s("llama3"), None, s("f")).is_none());
}

#[test]
fn connection_errors() {
    assert!(matches!(connection_error(LLMProvider::Ollama, true, s("refused")), LLMError::NetworkError(m) if m == "Cannot connect to Ollama. Make sure Ollama is running."));
    assert!(matches!(connection_error(LLMProvider::Ollama, false, s("timeout")), LLMError::NetworkError(m) if m == "timeout"));
    assert!(matches!(connection_error(LLMProvider::OpenAI, true, s("refused")), LLMError::NetworkError(m) if m == "refused"));
}

#[test]
fn factory_and_capabilities() {
    let mut config = LLMConfig::default();
    let p = create_provider(&config, None);
    assert_eq!(p.name(), "Anthropic");
    assert!(!p.is_configured());
    assert!(matches!(credential(&p), Err(LLMError::InvalidApiKey)));
    config.provider = LLMProvider::OpenAI;
    config.model = s("gpt-4o");
    let p = create_provider(&config, Some(s("k")));
    assert_eq!(p.name(), "OpenAI");
    assert!(p.is_configured());
    assert_eq!(credential(&p).unwrap(), Some(s("k")));
    match &p {
        Provider::OpenAI(o) => assert_eq!(o.model, "gpt-4o"),
        _ => panic!("expected the OpenAI provider"),
    }
    config.provider = LLMProvider::Ollama;
    let p = create_provider(&config, Some(s("ignored")));
    assert_eq!(p.name(), "Ollama");
    assert!(p.is_configured());
    assert_eq!(credential(&p).unwrap(), None);
}

#[test]
fn responses_and_token_counts() {
    let r = response_from_parts(vec![s("first"), s("second")], s("m"), 10, 32);
    assert_eq!(r.content, "first");
    assert_eq!(r.tokens_used, Some(42));
    let r = response_from_parts(vec![], s("m"), u32::MAX, 1);
    assert_eq!(r.content, "");
    assert_eq!(r.tokens_used, None);
}

#[test]
fn error_descriptions() {
    assert_eq!(LLMError::RequestFailed(s("boom")).to_string(), "API request failed: boom");
    assert_eq!(LLMError::InvalidApiKey.to_string(), "Invalid API key");
    assert_eq!(LLMError::NetworkError(s("down")).to_string(), "Network error: down");
    assert_eq!(LLMError::ParseError(s("bad")).to_string(), "Parse error: bad");
}

#[test]
fn chat_request_parts() {
    let req = GenerationRequest { prompt: s("p"), system_prompt: Some(s("sys")), max_tokens: None, temperature_milli: Some(700) };
    assert_eq!(max_tokens_or_default(&req), 4096);
    let with = chat_messages(&req, true);
    assert_eq!((with[0].role.as_str(), with[0].content.as_str()), ("system", "sys"));
    assert_eq!((with[1].role.as_str(), with[1].content.as_str()), ("user", "p"));
    let without = chat_messages(&req, false);
    assert_eq!(without.len(), 1);
    assert_eq!(without[0].content, "p");
}
