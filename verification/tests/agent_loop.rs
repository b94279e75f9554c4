use mistake_agent::agent::{new_messages, StepEvent, StepState, TurnGuard, MAX_TOOL_CALLS};
use mistake_agent::contract::ToolErrorCode;
use mistake_agent::message::{Message, MessageId, MessageKind};
use mistake_agent::services::{ItemKind, ModelChunk};

#[test]
fn tool_call_limit_stops_the_turn() {
    let mut g = TurnGuard::new();
    for _ in 0..MAX_TOOL_CALLS {
        assert!(!g.begin_call());
        assert!(!g.record_result(None));
    }
    assert!(g.begin_call());
    assert_eq!(g.tool_calls, MAX_TOOL_CALLS + 1);
}

#[test]
fn three_same_failures_in_a_row_stop_the_turn() {
    let mut g = TurnGuard::new();
    assert!(!g.record_result(Some(ToolErrorCode::Timeout)));
    assert!(!g.record_result(Some(ToolErrorCode::InvalidParams)));
    assert!(!g.record_result(Some(ToolErrorCode::InvalidParams)));
    assert_eq!(g.consecutive_failures, 2);
    assert!(g.record_result(Some(ToolErrorCode::InvalidParams)));
}

#[test]
fn a_success_resets_the_failure_run() {
    let mut g = TurnGuard::new();
    g.record_result(Some(ToolErrorCode::Timeout));
    g.record_result(Some(ToolErrorCode::Timeout));
    assert!(!g.record_result(None));
    assert_eq!(g.consecutive_failures, 0);
    assert!(!g.record_result(Some(ToolErrorCode::Timeout)));
    assert_eq!(g.consecutive_failures, 1);
}

#[test]
fn step_assembles_bubble_reasoning_and_calls() {
    let mut st = StepState::new();
    let mut conv: Vec<Message> = vec![Message::user(MessageId(1), "hi", 0)];
    let chunks = vec![
        ModelChunk::ReasoningItemStart { id: "rs_1".into() },
        ModelChunk::ReasoningDelta("想".into()),
        ModelChunk::ItemDone { kind: ItemKind::Reasoning },
        ModelChunk::TextDelta("你".into()),
        ModelChunk::TextDelta("好".into()),
        ModelChunk::ItemDone { kind: ItemKind::Message },
        ModelChunk::ToolCallStart { index: 3, call_id: "c3".into(), name: "b__y".into() },
        ModelChunk::ToolCallStart { index: 1, call_id: "c1".into(), name: "a__x".into() },
        ModelChunk::ToolCallDelta { index: 1, data: "{\"k\":".into() },
        ModelChunk::ToolCallDelta { index: 1, data: "1}".into() },
        ModelChunk::ItemDone { kind: ItemKind::FunctionCall },
        ModelChunk::Done,
    ];
    let mut n: u128 = 10;
    let mut deltas = Vec::new();
    for c in chunks {
        n += 1;
        match st.apply(&mut conv, c, MessageId(n), format!("item{n}"), 5) {
            Some(StepEvent::MessageDelta { delta, .. }) => deltas.push(delta),
            _ => {}
        }
    }
    assert_eq!(deltas, vec!["你".to_string(), "好".to_string()]);
    assert!(st.is_finished());
    assert_eq!(conv.len(), 3);
    match &conv[1].kind {
        MessageKind::Reasoning { id, text } => {
            assert_eq!(id, "rs_1");
            assert_eq!(text, "想");
        }
        _ => panic!("应为推理"),
    }
    assert_eq!(conv[1].parent_id, Some(MessageId(1)));
    match &conv[2].kind {
        MessageKind::Assistant { text } => assert_eq!(text, "你好"),
        _ => panic!("应为助手消息"),
    }
    assert_eq!(conv[2].parent_id, Some(conv[1].id));
    let done = st.into_done();
    assert_eq!(done.len(), 1);
    assert_eq!(done[0].0, 1);
    assert_eq!(done[0].1.name, "a__x");
    assert_eq!(done[0].1.arguments, "{\"k\":1}");
}

#[test]
fn empty_bubble_is_dropped() {
    let mut st = StepState::new();
    let mut conv: Vec<Message> = Vec::new();
    st.apply(&mut conv, ModelChunk::TextDelta(String::new()), MessageId(1), "i".into(), 0);
    st.apply(&mut conv, ModelChunk::ItemDone { kind: ItemKind::Message }, MessageId(2), "i".into(), 0);
    assert!(conv.is_empty());
}

#[test]
fn new_messages_leave_out_preexisting() {
    let conv = vec![
        Message::user(MessageId(1), "a", 0),
        Message::assistant(MessageId(2), "b", 0),
        Message::assistant(MessageId(3), "c", 0),
    ];
    let out = new_messages(conv, &vec![MessageId(1)]);
    assert_eq!(out.iter().map(|m| m.id.0).collect::<Vec<_>>(), vec![2, 3]);
}
