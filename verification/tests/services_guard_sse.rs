use mistake_agent::guard::{next_retry, parse_guard_decision, strip_code_fence, CallFailure, GuardDecision, GuardInput, GuardModel, StubGuard};
use mistake_agent::services::{collect_response, ItemKind, MockModelService, ModelChunk, ModelError, TokenUsage};
use mistake_agent::session::Goal;
use mistake_agent::sse::SseParser;

#[test]
fn systemic_errors() {
    assert!(ModelError::AuthFailed("x".into()).is_systemic());
    assert!(ModelError::QuotaExceeded("x".into()).is_systemic());
    assert!(ModelError::ModelNotFound("x".into()).is_systemic());
    assert!(!ModelError::Timeout.is_systemic());
    assert!(!ModelError::RateLimited("x".into()).is_systemic());
}

#[test]
fn collect_response_folds_chunks() {
    let chunks = vec![
        Ok(ModelChunk::TextDelta("a".into())),
        Ok(ModelChunk::ToolCallStart { index: 0, call_id: "c".into(), name: "n".into() }),
        Ok(ModelChunk::ToolCallDelta { index: 0, data: "{}".into() }),
        Ok(ModelChunk::TextDelta("b".into())),
        Ok(ModelChunk::Usage(TokenUsage::io(3, 4))),
        Ok(ModelChunk::Done),
    ];
    let r = collect_response(chunks).unwrap();
    assert_eq!(r.text, "ab");
    assert_eq!(r.tool_calls.len(), 1);
    assert_eq!(r.tool_calls[0].arguments, "{}");
    assert_eq!(r.usage, Some(TokenUsage::io(3, 4)));
    let failing = vec![Ok(ModelChunk::TextDelta("a".into())), Err(ModelError::Transport("断开".into()))];
    assert!(matches!(collect_response(failing), Err(ModelError::Transport(m)) if m == "断开"));
}

#[test]
fn mock_model_stream_and_complete_agree() {
    let m = MockModelService::new("你好");
    let streamed = collect_response(m.stream()).unwrap();
    let direct = m.complete();
    assert_eq!(streamed.text, direct.text);
    assert_eq!(streamed.usage, direct.usage);
    assert!(matches!(m.stream()[1], Ok(ModelChunk::ItemDone { kind: ItemKind::Message })));
    assert_eq!(MockModelService::default_reply().complete().text, "你好，我是 so-lite-agent。");
}

#[test]
fn stub_guard_starts_new_on_keywords() {
    let g = StubGuard::new();
    let input = GuardInput { goal: None, summary: String::new(), new_text: Some("生成周复习报告".into()) };
    match g.decide(&input).unwrap() {
        GuardDecision::StartNew(Goal { text }) => assert_eq!(text, "生成周复习报告"),
        _ => panic!("应开新会话"),
    }
    let plain = GuardInput { goal: None, summary: String::new(), new_text: Some("继续讲".into()) };
    assert!(matches!(g.decide(&plain).unwrap(), GuardDecision::Continue));
    let none = GuardInput { goal: None, summary: String::new(), new_text: None };
    assert!(matches!(g.decide(&none).unwrap(), GuardDecision::Continue));
}

#[test]
fn code_fences_are_stripped() {
    assert_eq!(strip_code_fence(" ```json\n{\"action\":\"continue\"}\n``` "), "{\"action\":\"continue\"}");
    assert_eq!(strip_code_fence("```{}```"), "{}");
    assert_eq!(strip_code_fence("  {}  "), "{}");
    assert_eq!(strip_code_fence("```json {} "), "```json {}");
}

#[test]
fn retries_stop_on_systemic_errors_and_budget() {
    assert_eq!(next_retry(&CallFailure::Error(ModelError::Transport("503".into())), 0, 2), Some(1));
    assert_eq!(next_retry(&CallFailure::Error(ModelError::Transport("503".into())), 2, 2), None);
    assert_eq!(next_retry(&CallFailure::Error(ModelError::AuthFailed("401".into())), 0, 2), None);
    assert_eq!(next_retry(&CallFailure::Error(ModelError::Cancelled), 0, 2), None);
    assert_eq!(next_retry(&CallFailure::TimedOut, 1, 2), Some(2));
}

#[test]
fn sse_records_span_chunks() {
    let mut p = SseParser::new();
    let first = p.push_chunk(b"event: response.output_text.delta\r\ndata: {\"delta\":");
    assert!(first.is_empty());
    let second = p.push_chunk(b"\"hi\"}\n\nevent: x\ndata: a\ndata: b\n\n");
    assert_eq!(second.len(), 2);
    assert_eq!(second[0].name, "response.output_text.delta");
    assert_eq!(second[0].data, "{\"delta\":\"hi\"}");
    assert_eq!(second[1].name, "x");
    assert_eq!(second[1].data, "a\nb");
}

#[test]
fn guard_replies_are_read_with_or_without_fence() {
    assert!(matches!(parse_guard_decision(r#"{"action":"continue","goal":""}"#), Some(GuardDecision::Continue)));
    match parse_guard_decision("```json\n{\"action\":\"start_new\",\"goal\":\"  复习三角函数 \"}\n```") {
        Some(GuardDecision::StartNew(g)) => assert_eq!(g.text, "复习三角函数"),
        other => panic!("unexpected {other:?}"),
    }
    match parse_guard_decision(" {\"action\":\"update_goal\"} ") {
        Some(GuardDecision::UpdateGoal(g)) => assert_eq!(g.text, ""),
        other => panic!("unexpected {other:?}"),
    }
    assert!(parse_guard_decision(r#"{"action":"fly","goal":"x"}"#).is_none());
    assert!(parse_guard_decision(r#"{"goal":"x"}"#).is_none());
    assert!(parse_guard_decision("不是 JSON").is_none());
}
