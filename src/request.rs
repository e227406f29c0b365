//! The outbound chat request: message list, endpoint and header set.
use vstd::prelude::*;
use vstd::string::*;

verus! {

/// The fixed instruction put before every conversation.
pub const SYSTEM_PROMPT: &'static str = "Ты - AI-ассистент для разработки на платформе 1С:Предприятие.\n\nТвои возможности:\n- Анализ и рефакторинг кода на языке BSL (1С)\n- Объяснение логики кода\n- Поиск ошибок и предложение исправлений\n- Написание нового кода по описанию\n- Форматирование и улучшение читаемости кода\n\nИспользуй русский язык в ответах. Форматируй код в блоках ```bsl...```.";

/// The kind of service a profile talks to.
#[derive(Clone, Copy, Debug, PartialEq, Eq)]
pub enum Provider {
    OpenAI,
    OpenRouter,
    Other,
}

/// One chat message as the API takes it.
#[derive(Clone, Debug)]
pub struct ApiMessage {
    pub role: String,
    pub content: String,
}

/// Why a call failed.
#[derive(Clone, Debug, PartialEq, Eq)]
pub enum ClientError {
    /// No profile is configured.
    ProfileMissing,
    /// The API key holds characters that an HTTP header value cannot carry.
    HeaderEncoding,
    /// The request could not be sent.
    RequestFailure(String),
    /// The server answered with a status outside 200..=299.
    Api { status: u16, body: String },
    /// Reading the streamed body failed.
    Stream(String),
    /// The body of a model list is no JSON.
    Decode,
}

/// A byte that `http` accepts in a header value, seen per character of the
/// text: every character but the control characters other than tab, and DEL.
pub open spec fn header_char_ok(c: char) -> bool {
    let u = c as u32;
    (u >= 32 && u != 127) || u == 9
}

pub open spec fn header_value_ok(s: Seq<char>) -> bool {
    forall|i: int| 0 <= i < s.len() ==> header_char_ok(#[trigger] s[i])
}

/// Relies on `http::HeaderValue::from_str` (re-exported by reqwest): it fails
/// exactly when a byte of the UTF-8 form is below 32 and no tab, or is 127.
/// Bytes of a multi-byte character are all 128 or more, so per character this
/// is `header_value_ok`.
#[verifier::external_body]
fn is_valid_header_value(s: &str) -> (r: bool)
    ensures
        r == header_value_ok(s@),
{
    reqwest::header::HeaderValue::from_str(s).is_ok()
}

/// `Bearer <key>`
pub open spec fn bearer(key: Seq<char>) -> Seq<char> {
    "Bearer "@ + key
}

/// The header set of a request, as (name, value) pairs: the content type,
/// then the bearer token if there is a key, then the two identification
/// headers for OpenRouter.
pub open spec fn expected_headers(provider: Provider, key: Seq<char>) -> Seq<(Seq<char>, Seq<char>)> {
    seq![("Content-Type"@, "application/json"@)] + (if key.len() > 0 {
        seq![("Authorization"@, bearer(key))]
    } else {
        Seq::empty()
    }) + (if provider == Provider::OpenRouter {
        seq![("HTTP-Referer"@, "https://mini-ai-1c.local"@), ("X-Title"@, "Mini AI 1C Agent"@)]
    } else {
        Seq::empty()
    })
}

pub open spec fn header_views(h: Seq<(String, String)>) -> Seq<(Seq<char>, Seq<char>)> {
    h.map_values(|p: (String, String)| (p.0@, p.1@))
}

/// The key cannot be sent: it is not empty and its header value is refused.
pub open spec fn key_unencodable(key: Seq<char>) -> bool {
    key.len() > 0 && !header_value_ok(bearer(key))
}

fn pair(name: &str, value: String) -> (r: (String, String))
    ensures
        r.0@ == name@,
        r.1@ == value@,
{
    (String::from_str(name), value)
}

/// The headers of a chat or model-list request. Fails with `HeaderEncoding`
/// exactly when the key is not empty and cannot be an HTTP header value; the
/// key is never dropped silently.
pub fn request_headers(provider: Provider, api_key: &str) -> (r: Result<Vec<(String, String)>, ClientError>)
    ensures
        r is Err <==> key_unencodable(api_key@),
        r is Err ==> r == Err::<Vec<(String, String)>, ClientError>(ClientError::HeaderEncoding),
        r is Ok ==> header_views(r->Ok_0@) == expected_headers(provider, api_key@),
{
    let mut h: Vec<(String, String)> = Vec::new();
    h.push(pair("Content-Type", String::from_str("application/json")));
    let ghost first = header_views(h@);
    assert(first =~= seq![("Content-Type"@, "application/json"@)]);
    if api_key.unicode_len() > 0 {
        let value = String::from_str("Bearer ").concat(api_key);
        if !is_valid_header_value(value.as_str()) {
            return Err(ClientError::HeaderEncoding);
        }
        h.push(pair("Authorization", value));
    }
    let ghost second = header_views(h@);
    assert(second =~= first + (if api_key@.len() > 0 {
        seq![("Authorization"@, bearer(api_key@))]
    } else {
        Seq::empty()
    }));
    match provider {
        Provider::OpenRouter => {
            h.push(pair("HTTP-Referer", String::from_str("https://mini-ai-1c.local")));
            h.push(pair("X-Title", String::from_str("Mini AI 1C Agent")));
        },
        _ => {},
    }
    assert(header_views(h@) =~= expected_headers(provider, api_key@));
    Ok(h)
}

/// The chat endpoint: the base URL as given, then `/chat/completions`.
pub fn chat_url(base_url: &str) -> (r: String)
    ensures
        r@ == base_url@ + "/chat/completions"@,
{
    String::from_str(base_url).concat("/chat/completions")
}

/// The outbound message list: the system instruction, then the caller's
/// messages in order.
pub fn build_messages(messages: Vec<ApiMessage>) -> (r: Vec<ApiMessage>)
    ensures
        r@.len() == messages@.len() + 1,
        r@[0].role@ == "system"@,
        r@[0].content@ == SYSTEM_PROMPT@,
        r@.subrange(1, r@.len() as int) == messages@,
{
    let mut r: Vec<ApiMessage> = Vec::new();
    r.push(ApiMessage { role: String::from_str("system"), content: String::from_str(SYSTEM_PROMPT) });
    let mut rest = messages;
    r.append(&mut rest);
    assert(r@.subrange(1, r@.len() as int) =~= messages@);
    r
}

/// `None` for a success status (200..=299); otherwise the API error that
/// carries the status and the body.
pub fn status_error(status: u16, body: String) -> (r: Option<ClientError>)
    ensures
        200 <= status <= 299 ==> r is None,
        !(200 <= status <= 299) ==> r == Some(ClientError::Api { status, body }),
{
    if 200 <= status && status <= 299 {
        None
    } else {
        Some(ClientError::Api { status, body })
    }
}

} // verus!
