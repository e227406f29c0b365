use ai_client::codeblock::extract_bsl_code;
use ai_client::models::{models_from_body, models_url};
use ai_client::request::{
    build_messages, chat_url, request_headers, status_error, ApiMessage, ClientError, Provider,
    SYSTEM_PROMPT,
};
use ai_client::sse::SseReader;

fn s(x: &str) -> String {
    x.to_string()
}

fn body(events: &[&str]) -> Vec<u8> {
    let mut out = String::new();
    for e in events {
        out.push_str(e);
        out.push_str("\n\n");
    }
    out.into_bytes()
}

fn delta(text: &str) -> String {
    format!("data: {{\"choices\":[{{\"delta\":{{\"content\":\"{}\"}}}}]}}", text)
}

/// Feeds `chunks` in order, stopping after `[DONE]` as a caller would;
/// returns the text and every fragment handed back.
fn run(chunks: &[&[u8]]) -> (String, Vec<String>, bool) {
    let mut r = SseReader::new();
    let mut frags = Vec::new();
    for c in chunks {
        frags.extend(r.feed(c));
        if r.is_done() {
            break;
        }
    }
    let done = r.is_done();
    (r.finish(), frags, done)
}

#[test]
fn extract_bsl_then_1c_in_order() {
    let t = "```bsl\nA();\n```\ntext\n```1c\nB();\n```";
    assert_eq!(extract_bsl_code(t), vec![s("A();"), s("B();")]);
}

#[test]
fn extract_unterminated_gives_nothing() {
    assert_eq!(extract_bsl_code("```bsl\nunterminated"), Vec::<String>::new());
}

#[test]
fn extract_twice_same_result() {
    let t = "x ```bsl\n  Сообщить(1);  \n``` y ```1c\nB();\n``` ```bsl\nC();```";
    let a = extract_bsl_code(t);
    let b = extract_bsl_code(t);
    assert_eq!(a, b);
    assert_eq!(a, vec![s("Сообщить(1);"), s("C();"), s("B();")]);
}

#[test]
fn extract_stops_at_unterminated_fence() {
    let t = "```bsl\nA();\n```\n```bsl\nB();\n";
    assert_eq!(extract_bsl_code(t), vec![s("A();")]);
}

#[test]
fn extract_no_fences() {
    assert_eq!(extract_bsl_code(""), Vec::<String>::new());
    assert_eq!(extract_bsl_code("plain text ```python\nx\n```"), Vec::<String>::new());
}

#[test]
fn stream_hello_world_any_split() {
    let full = body(&[&delta("Hello"), &delta(" world"), "data: [DONE]"]);
    for i in 0..=full.len() {
        for j in i..=full.len() {
            let (text, frags, done) = run(&[&full[..i], &full[i..j], &full[j..]]);
            assert_eq!(text, "Hello world");
            assert_eq!(frags, vec![s("Hello"), s(" world")]);
            assert!(done);
        }
    }
}

#[test]
fn stream_byte_by_byte() {
    let full = body(&[&delta("a"), &delta("b"), &delta("c"), "data: [DONE]"]);
    let chunks: Vec<&[u8]> = full.chunks(1).collect();
    let (text, frags, done) = run(&chunks);
    assert_eq!(text, "abc");
    assert_eq!(frags, vec![s("a"), s("b"), s("c")]);
    assert!(done);
}

#[test]
fn stream_without_done_returns_partial() {
    let full = body(&[&delta("partial")]);
    let (text, frags, done) = run(&[&full[..10], &full[10..]]);
    assert_eq!(text, "partial");
    assert_eq!(frags, vec![s("partial")]);
    assert!(!done);
}

#[test]
fn stream_ignores_bytes_after_done() {
    let full = body(&[&delta("x"), "data: [DONE]", &delta("y")]);
    let mut r = SseReader::new();
    let frags = r.feed(&full);
    assert_eq!(frags, vec![s("x")]);
    assert!(r.is_done());
    assert!(r.feed(&body(&[&delta("z")])).is_empty());
    assert_eq!(r.finish(), "x");
}

#[test]
fn stream_skips_malformed_and_other_lines() {
    let full = body(&[
        "data: {not json",
        ": comment\nevent: message",
        "data: {\"choices\":[{\"delta\":{}}]}",
        "data: {\"choices\":[]}",
        &delta("ok"),
    ]);
    let (text, frags, _) = run(&[&full]);
    assert_eq!(text, "ok");
    assert_eq!(frags, vec![s("ok")]);
}

#[test]
fn stream_many_events_in_one_chunk_and_lines_in_one_event() {
    let ev = format!("{}\n{}", delta("1"), delta("2"));
    let full = body(&[&ev, &delta("3")]);
    let (text, frags, _) = run(&[&full]);
    assert_eq!(text, "123");
    assert_eq!(frags, vec![s("1"), s("2"), s("3")]);
}

#[test]
fn stream_keeps_unfinished_event() {
    let mut r = SseReader::new();
    assert!(r.feed(delta("later").as_bytes()).is_empty());
    assert_eq!(r.text(), "");
    assert_eq!(r.feed(b"\n\n"), vec![s("later")]);
}

#[test]
fn stream_crlf_before_line_feed_is_dropped() {
    let ev = format!("{}\r\ndata: [DONE]", delta("q"));
    let (text, _, done) = run(&[&body(&[&ev])]);
    assert_eq!(text, "q");
    assert!(done);
}

#[test]
fn stream_invalid_utf8_replaced() {
    let mut full = b"data: {\"choices\":[{\"delta\":{\"content\":\"a".to_vec();
    full.push(0xff);
    full.extend_from_slice(b"\"}}]}\n\n");
    let (text, _, _) = run(&[&full]);
    assert_eq!(text, "a\u{FFFD}");
}

#[test]
fn stream_multibyte_split_across_chunks() {
    let full = body(&[&delta("привет")]);
    let chunks: Vec<&[u8]> = full.chunks(3).collect();
    let (text, _, _) = run(&chunks);
    assert_eq!(text, "привет");
}

#[test]
fn api_error_carries_status_and_body() {
    let r = SseReader::new();
    let e = status_error(401, s("unauthorized"));
    assert_eq!(e, Some(ClientError::Api { status: 401, body: s("unauthorized") }));
    assert_eq!(r.finish(), "");
    assert_eq!(status_error(200, s("")), None);
    assert_eq!(status_error(299, s("")), None);
    assert!(status_error(300, s("")).is_some());
    assert!(status_error(199, s("")).is_some());
}

#[test]
fn models_sorted_and_malformed_skipped() {
    let b = r#"{"data":[{"id":"gpt-4"},{"id":"gpt-3.5"},{"bad":1}]}"#;
    assert_eq!(models_from_body(b), Ok(vec![s("gpt-3.5"), s("gpt-4")]));
}

#[test]
fn models_edge_cases() {
    assert_eq!(models_from_body("not json"), Err(ClientError::Decode));
    assert_eq!(models_from_body("{}"), Ok(vec![]));
    assert_eq!(models_from_body(r#"{"data":5}"#), Ok(vec![]));
    assert_eq!(
        models_from_body(r#"{"data":[{"id":"b"},{"id":7},{"id":"a"},{"id":"b"}]}"#),
        Ok(vec![s("a"), s("b"), s("b")])
    );
}

#[test]
fn models_url_derivation() {
    assert_eq!(models_url("https://api.openai.com/v1"), "https://api.openai.com/v1/models");
    assert_eq!(models_url("https://api.openai.com/v1//"), "https://api.openai.com/v1/models");
    assert_eq!(
        models_url("https://host/v1/chat/completions"),
        "https://host/v1/models"
    );
    assert_eq!(models_url(""), "/models");
}

#[test]
fn chat_url_appends_path() {
    assert_eq!(chat_url("https://host/v1/"), "https://host/v1//chat/completions");
    assert_eq!(chat_url("https://host/v1"), "https://host/v1/chat/completions");
}

#[test]
fn headers_without_key() {
    let h = request_headers(Provider::OpenAI, "").unwrap();
    assert_eq!(h, vec![(s("Content-Type"), s("application/json"))]);
}

#[test]
fn headers_with_key_and_openrouter() {
    let h = request_headers(Provider::OpenRouter, "sk-1").unwrap();
    assert_eq!(
        h,
        vec![
            (s("Content-Type"), s("application/json")),
            (s("Authorization"), s("Bearer sk-1")),
            (s("HTTP-Referer"), s("https://mini-ai-1c.local")),
            (s("X-Title"), s("Mini AI 1C Agent")),
        ]
    );
    let h = request_headers(Provider::Other, "k").unwrap();
    assert_eq!(h.len(), 2);
}

#[test]
fn headers_reject_bad_key() {
    assert_eq!(request_headers(Provider::OpenAI, "a\nb"), Err(ClientError::HeaderEncoding));
    assert_eq!(request_headers(Provider::OpenAI, "a\u{7f}"), Err(ClientError::HeaderEncoding));
    assert!(request_headers(Provider::OpenAI, "a\tb").is_ok());
}

#[test]
fn messages_start_with_system_prompt() {
    let m = vec![ApiMessage { role: s("user"), content: s("hi") }];
    let r = build_messages(m);
    assert_eq!(r.len(), 2);
    assert_eq!(r[0].role, "system");
    assert_eq!(r[0].content, SYSTEM_PROMPT);
    assert_eq!(r[1].role, "user");
    assert_eq!(r[1].content, "hi");
}
