use mistake_agent::contract::{ToolError, ToolErrorCode};
use mistake_agent::message::{Message, MessageId};
use mistake_agent::responses::{
    anthropic_endpoint, chat_endpoint, chat_usage, map_status_error, parse_usage, reply_chunks, responses_endpoint,
    EventFields, StreamDecoder,
};
use mistake_agent::services::{ItemKind, ModelChunk, ModelError, TokenUsage};
use mistake_agent::wire::{anthropic_parts, error_output, messages_to_cc, messages_to_responses_input, Role, WireItem};

fn fields() -> EventFields {
    EventFields {
        parsed: true,
        item_type: None,
        item_id: None,
        call_id: None,
        name: None,
        output_index: None,
        delta: None,
        usage_input: None,
        usage_output: None,
        usage_cached: None,
        usage_reasoning: None,
        error_message: None,
    }
}

fn item(kind: &str) -> EventFields {
    EventFields { item_type: Some(kind.into()), ..fields() }
}

fn delta(d: &str) -> EventFields {
    EventFields { delta: Some(d.into()), ..fields() }
}

#[test]
fn responses_endpoint_strips_slashes_and_version() {
    assert_eq!(responses_endpoint("https://api.example.com/v1"), "https://api.example.com/responses");
    assert_eq!(responses_endpoint("https://api.example.com/v1///"), "https://api.example.com/responses");
    assert_eq!(responses_endpoint("https://api.example.com/"), "https://api.example.com/responses");
    assert_eq!(responses_endpoint("https://api.example.com/api"), "https://api.example.com/api/responses");
    assert_eq!(responses_endpoint(""), "/responses");
}

#[test]
fn chat_and_anthropic_endpoints() {
    assert_eq!(chat_endpoint("https://api.deepseek.com/"), "https://api.deepseek.com/chat/completions");
    assert_eq!(anthropic_endpoint("https://api.anthropic.com//"), "https://api.anthropic.com/v1/messages");
}

#[test]
fn status_errors_map_by_code_and_cut_the_body() {
    assert!(matches!(map_status_error(401, "401 Unauthorized", "bad key"), ModelError::AuthFailed(b) if b == "bad key"));
    assert!(matches!(map_status_error(402, "402", "pay"), ModelError::QuotaExceeded(b) if b == "pay"));
    assert!(matches!(map_status_error(404, "404", "no"), ModelError::ModelNotFound(_)));
    assert!(matches!(map_status_error(429, "429", "slow"), ModelError::RateLimited(_)));
    assert!(matches!(map_status_error(400, "400", "x"), ModelError::Protocol(_)));
    assert!(matches!(map_status_error(422, "422", "x"), ModelError::Protocol(_)));
    match map_status_error(503, "503 Service Unavailable", "busy") {
        ModelError::Transport(m) => assert_eq!(m, "HTTP 503 Service Unavailable: busy"),
        other => panic!("意外：{other:?}"),
    }
    let long = "错".repeat(600);
    match map_status_error(401, "401", &long) {
        ModelError::AuthFailed(b) => assert_eq!(b.chars().count(), 500),
        other => panic!("意外：{other:?}"),
    }
}

#[test]
fn usage_counts_cache_misses() {
    let u = parse_usage(Some(100), Some(20), Some(30), Some(5));
    assert_eq!(u.input_tokens, Some(100));
    assert_eq!(u.output_tokens, Some(20));
    assert_eq!(u.cached_tokens, Some(30));
    assert_eq!(u.cache_miss_tokens, Some(70));
    assert_eq!(u.reasoning_tokens, Some(5));
    assert_eq!(parse_usage(Some(10), None, Some(30), None).cache_miss_tokens, Some(0));
    assert_eq!(parse_usage(None, None, Some(30), None).cache_miss_tokens, None);
    let c: TokenUsage = chat_usage(Some(9), Some(3), Some(4), Some(5));
    assert_eq!(c.cache_miss_tokens, Some(5));
    assert_eq!(c.reasoning_tokens, None);
}

#[test]
fn stream_decoder_maps_event_shapes() {
    let mut d = StreamDecoder::new();
    let out = d.decode("response.output_item.added", &EventFields { item_id: Some("rs_1".into()), ..item("reasoning") });
    assert!(matches!(&out[..], [Ok(ModelChunk::ReasoningItemStart { id })] if id == "rs_1"));
    let out = d.decode("response.reasoning_text.delta", &delta("想"));
    assert!(matches!(&out[..], [Ok(ModelChunk::ReasoningDelta(t))] if t == "想"));
    let out = d.decode("response.output_text.delta", &delta("你好"));
    assert!(matches!(&out[..], [Ok(ModelChunk::TextDelta(t))] if t == "你好"));
    let out = d.decode("response.output_item.done", &item("message"));
    assert!(matches!(&out[..], [Ok(ModelChunk::ItemDone { kind: ItemKind::Message })]));

    let call = EventFields { call_id: Some("call_9".into()), name: Some("memory__show".into()), ..item("function_call") };
    let out = d.decode("response.output_item.added", &call);
    assert!(matches!(&out[..], [Ok(ModelChunk::ToolCallStart { index: 1, call_id, name })] if call_id == "call_9" && name == "memory__show"));
    let out = d.decode("response.function_call_arguments.delta", &delta("{\"a\":1}"));
    assert!(matches!(&out[..], [Ok(ModelChunk::ToolCallDelta { index: 1, data })] if data == "{\"a\":1}"));
    let out = d.decode(
        "response.function_call_arguments.delta",
        &EventFields { output_index: Some(4), ..delta("x") },
    );
    assert!(matches!(&out[..], [Ok(ModelChunk::ToolCallDelta { index: 4, .. })]));
    let out = d.decode("response.output_item.done", &item("function_call"));
    assert!(matches!(&out[..], [Ok(ModelChunk::ItemDone { kind: ItemKind::FunctionCall })]));

    assert!(d.decode("response.created", &fields()).is_empty());
    let done = EventFields { usage_input: Some(12), usage_output: Some(3), ..fields() };
    let out = d.decode("response.completed", &done);
    assert_eq!(out.len(), 2);
    assert!(matches!(&out[0], Ok(ModelChunk::Usage(u)) if u.input_tokens == Some(12) && u.output_tokens == Some(3)));
    assert!(matches!(&out[1], Ok(ModelChunk::Done)));
    assert!(d.decode("response.completed", &done).is_empty(), "结束后不再产出");
    assert!(d.finish().is_none());
}

#[test]
fn stream_decoder_reports_failure_and_finishes_unended_streams() {
    let mut d = StreamDecoder::new();
    let out = d.decode("response.failed", &EventFields { error_message: Some("额度不足".into()), ..fields() });
    assert!(matches!(&out[..], [Err(ModelError::Protocol(m))] if m == "额度不足"));
    assert!(d.decode("response.failed", &fields()).is_empty());

    let mut d = StreamDecoder::new();
    let out = d.decode("response.failed", &EventFields { parsed: false, ..fields() });
    assert!(matches!(&out[..], [Err(ModelError::Protocol(m))] if m == "响应失败"));

    let mut d = StreamDecoder::new();
    let out = d.decode("response.output_text.delta", &EventFields { parsed: false, ..fields() });
    assert!(matches!(&out[..], [Ok(ModelChunk::TextDelta(t))] if t.is_empty()));
    assert!(matches!(d.finish(), Some(ModelChunk::Done)));
    let out = d.decode("response.incomplete", &EventFields { parsed: false, ..fields() });
    assert!(matches!(&out[..], [Ok(ModelChunk::Done)]));
}

#[test]
fn reply_chunks_of_a_whole_answer() {
    let out = reply_chunks("答案".to_string());
    assert!(matches!(&out[..], [Ok(ModelChunk::TextDelta(t)), Ok(ModelChunk::Done)] if t == "答案"));
    let out = reply_chunks(String::new());
    assert!(matches!(&out[..], [Ok(ModelChunk::Done)]));
}

#[test]
fn error_output_is_json_with_escaped_message() {
    let e = ToolError::new(ToolErrorCode::InvalidParams, "缺少 \"id\"", true);
    assert_eq!(
        error_output(&e),
        "{\"error\":{\"code\":\"invalid_params\",\"message\":\"缺少 \\\"id\\\"\",\"retryable\":true}}"
    );
    let parsed: serde_json::Value = serde_json::from_str(&error_output(&ToolError::timeout())).unwrap();
    assert_eq!(parsed["error"]["code"], "timeout");
}

#[test]
fn error_output_escapes_control_characters() {
    let e = ToolError::new(ToolErrorCode::HandlerError, "a\\b\n\t\r\u{8}\u{c}\u{1}\u{1f}\u{7f}/é", false);
    assert_eq!(
        error_output(&e),
        "{\"error\":{\"code\":\"handler_error\",\"message\":\"a\\\\b\\n\\t\\r\\b\\f\\u0001\\u001f\u{7f}/é\",\"retryable\":false}}"
    );
}

fn conversation() -> Vec<Message> {
    let mut v = vec![
        Message::system(MessageId(1), "规则", 0),
        Message::user(MessageId(2), "问", 0),
        Message::assistant(MessageId(3), "答", 0),
    ];
    let mut r = Message::system(MessageId(4), "补充", 0);
    r.kind = mistake_agent::message::MessageKind::Reasoning { id: "rs_1".into(), text: "想".into() };
    v.push(r);
    v.push(Message::tool_call_with_id(MessageId(5), "memory::show", "{}".into(), Ok("[]".into()), "call_1".into(), 0));
    v.push(Message::tool_call(MessageId(6), "memory::wipe", "{}".into(), Err(ToolError::forbidden()), 0));
    v.push(Message::system(MessageId(7), "再补充", 0));
    v
}

#[test]
fn responses_input_keeps_reasoning_and_pairs_calls() {
    let items = messages_to_responses_input(&conversation());
    assert_eq!(items.len(), 9);
    assert!(matches!(&items[0], WireItem::Message { role: Role::System, text } if text == "规则"));
    assert!(matches!(&items[1], WireItem::Message { role: Role::User, text } if text == "问"));
    assert!(matches!(&items[2], WireItem::Message { role: Role::Assistant, text } if text == "答"));
    assert!(matches!(&items[3], WireItem::Reasoning { id, text } if id == "rs_1" && text == "想"));
    assert!(matches!(&items[4], WireItem::Call { call_id, name, arguments } if call_id == "call_1" && name == "memory__show" && arguments == "{}"));
    assert!(matches!(&items[5], WireItem::CallOutput { call_id, output } if call_id == "call_1" && output == "[]"));
    let own_id = "00000000-0000-0000-0000-000000000006";
    assert!(matches!(&items[6], WireItem::Call { call_id, name, .. } if call_id == own_id && name == "memory__wipe"));
    match &items[7] {
        WireItem::CallOutput { call_id, output } => {
            assert_eq!(call_id, own_id);
            assert!(output.starts_with("{\"error\":{\"code\":\"forbidden\""));
        },
        other => panic!("意外：{other:?}"),
    }
}

#[test]
fn chat_messages_leave_reasoning_out() {
    let items = messages_to_cc(&conversation());
    assert_eq!(items.len(), 8);
    assert!(!items.iter().any(|i| matches!(i, WireItem::Reasoning { .. })));
}

#[test]
fn anthropic_parts_join_system_texts() {
    let (system, dialogue) = anthropic_parts(&conversation());
    assert_eq!(system, "规则\n再补充");
    assert_eq!(dialogue.len(), 2);
    assert!(matches!(&dialogue[0], WireItem::Message { role: Role::User, text } if text == "问"));
    assert!(matches!(&dialogue[1], WireItem::Message { role: Role::Assistant, text } if text == "答"));
    let (system, _) = anthropic_parts(&vec![Message::user(MessageId(1), "只有问", 0)]);
    assert_eq!(system, "");
}
