use mistake_agent::agent::{LoopError, StepEvent, StepState, StopReason, ToolCallAcc};
use mistake_agent::contract::{CallerPolicy, LoadPolicy, ToolError, ToolErrorCode};
use mistake_agent::message::{Message, MessageId, MessageKind};
use mistake_agent::registry::{tool_def, EntryKind, Info, Registry};
use mistake_agent::services::{ItemKind, ModelChunk, ServiceId};
use mistake_agent::turn::{turn_next, TurnAction, TurnEvent, TurnState};
use mistake_agent::upload::within_dir;

fn registry() -> Registry {
    let mut r = Registry::new(vec![ServiceId::Model]);
    r.register(
        Info {
            namespace: "memory".into(),
            requires: Vec::new(),
            provides: Vec::new(),
            load: LoadPolicy::Eager,
            tools: vec![tool_def("show", "翻看", CallerPolicy::UserAndModel)],
            commands: Vec::new(),
            events: Vec::new(),
        },
        false,
    )
    .unwrap();
    r.begin_load("memory").unwrap();
    r.bind("memory", "show", EntryKind::Tool).unwrap();
    r
}

fn call(index: usize, name: &str, arguments: &str) -> (usize, ToolCallAcc) {
    (index, ToolCallAcc { name: name.to_string(), arguments: arguments.to_string() })
}

fn begin() -> TurnEvent {
    TurnEvent::Begin { cancelled: false, deadline_passed: false }
}

fn done(result: Result<String, ToolError>, id: u128) -> TurnEvent {
    TurnEvent::ToolDone { result, message_id: MessageId(id), now: 7 }
}

fn finish_of(a: TurnAction) -> (StopReason, usize) {
    match a {
        TurnAction::Finish { stop, tool_calls } => (stop, tool_calls),
        _ => panic!("expected the turn to finish"),
    }
}

#[test]
fn forced_tool_goes_with_the_first_request_only() {
    let reg = registry();
    let mut conv: Vec<Message> = vec![Message::user(MessageId(1), "题", 0)];
    let mut st = TurnState::new(Some("memory__show".to_string()));
    match turn_next(&mut st, &reg, &mut conv, begin()) {
        TurnAction::AskModel { forced_tool, reasoning_off } => {
            assert_eq!(forced_tool.as_deref(), Some("memory__show"));
            assert!(reasoning_off);
        },
        _ => panic!("expected a model request"),
    }
    let calls = vec![call(0, "memory__show", "{ \"q\": 1 }")];
    match turn_next(&mut st, &reg, &mut conv, TurnEvent::StepDone { cancelled: false, calls }) {
        TurnAction::RunTool { full, params, refusal } => {
            assert_eq!(full, "memory::show");
            assert_eq!(params, "{\"q\":1}");
            assert!(refusal.is_none());
        },
        _ => panic!("expected a tool call"),
    }
    assert!(matches!(turn_next(&mut st, &reg, &mut conv, done(Ok("{}".into()), 2)), TurnAction::NextStep));
    assert_eq!(conv.len(), 2);
    assert_eq!(conv[1].parent_id, Some(MessageId(1)));
    match &conv[1].kind {
        MessageKind::ToolCall { entry, params, result, .. } => {
            assert_eq!(entry, "memory::show");
            assert_eq!(params, "{\"q\":1}");
            assert_eq!(result.as_ref().unwrap(), "{}");
        },
        _ => panic!("expected the tool-call message"),
    }
    match turn_next(&mut st, &reg, &mut conv, begin()) {
        TurnAction::AskModel { forced_tool, reasoning_off } => {
            assert!(forced_tool.is_none());
            assert!(reasoning_off);
        },
        _ => panic!("expected a model request"),
    }
    let (stop, n) = finish_of(turn_next(&mut st, &reg, &mut conv, TurnEvent::StepDone { cancelled: false, calls: Vec::new() }));
    assert_eq!(stop, StopReason::Natural);
    assert_eq!(n, 1);
}

#[test]
fn unknown_tool_ends_as_unknown_whatever_is_reported() {
    let reg = registry();
    let mut conv: Vec<Message> = Vec::new();
    let mut st = TurnState::new(None);
    turn_next(&mut st, &reg, &mut conv, begin());
    let calls = vec![call(0, "nothing__here", "not json")];
    match turn_next(&mut st, &reg, &mut conv, TurnEvent::StepDone { cancelled: false, calls }) {
        TurnAction::RunTool { full, params, refusal } => {
            assert_eq!(full, "");
            assert_eq!(params, "{}");
            let e = refusal.unwrap();
            assert_eq!(e.code, ToolErrorCode::UnknownTool);
            assert_eq!(e.message, "未知工具：nothing__here");
        },
        _ => panic!("expected the call to be reported"),
    }
    assert!(matches!(turn_next(&mut st, &reg, &mut conv, done(Ok("fine".into()), 3)), TurnAction::NextStep));
    match &conv[0].kind {
        MessageKind::ToolCall { result, .. } => {
            let e = result.as_ref().unwrap_err();
            assert_eq!(e.code, ToolErrorCode::UnknownTool);
            assert!(!e.retryable);
        },
        _ => panic!("expected the tool-call message"),
    }
}

#[test]
fn three_failures_with_one_code_end_the_turn() {
    let reg = registry();
    let mut conv: Vec<Message> = Vec::new();
    let mut st = TurnState::new(None);
    turn_next(&mut st, &reg, &mut conv, begin());
    let calls = vec![call(0, "memory__show", "{}"), call(1, "memory__show", "{}"), call(2, "memory__show", "{}"), call(3, "memory__show", "{}")];
    assert!(matches!(
        turn_next(&mut st, &reg, &mut conv, TurnEvent::StepDone { cancelled: false, calls }),
        TurnAction::RunTool { .. }
    ));
    let fail = || Err(ToolError::new(ToolErrorCode::HandlerError, "坏了", false));
    assert!(matches!(turn_next(&mut st, &reg, &mut conv, done(fail(), 10)), TurnAction::RunTool { .. }));
    assert!(matches!(turn_next(&mut st, &reg, &mut conv, done(fail(), 11)), TurnAction::RunTool { .. }));
    let (stop, n) = finish_of(turn_next(&mut st, &reg, &mut conv, done(fail(), 12)));
    assert_eq!(stop, StopReason::ConsecutiveFailures);
    assert_eq!(n, 3);
    // the third failed call is kept in the conversation
    assert_eq!(conv.len(), 3);
    assert_eq!(conv[2].id, MessageId(12));
}

#[test]
fn a_success_or_another_code_breaks_the_run() {
    let reg = registry();
    let mut conv: Vec<Message> = Vec::new();
    let mut st = TurnState::new(None);
    turn_next(&mut st, &reg, &mut conv, begin());
    let calls = (0..5).map(|i| call(i, "memory__show", "{}")).collect();
    turn_next(&mut st, &reg, &mut conv, TurnEvent::StepDone { cancelled: false, calls });
    let fail = |c| Err(ToolError::new(c, "坏了", false));
    assert!(matches!(turn_next(&mut st, &reg, &mut conv, done(fail(ToolErrorCode::Timeout), 1)), TurnAction::RunTool { .. }));
    assert!(matches!(turn_next(&mut st, &reg, &mut conv, done(fail(ToolErrorCode::Timeout), 2)), TurnAction::RunTool { .. }));
    assert!(matches!(turn_next(&mut st, &reg, &mut conv, done(fail(ToolErrorCode::HandlerError), 3)), TurnAction::RunTool { .. }));
    assert!(matches!(turn_next(&mut st, &reg, &mut conv, done(Ok("{}".into()), 4)), TurnAction::RunTool { .. }));
    assert!(matches!(turn_next(&mut st, &reg, &mut conv, done(fail(ToolErrorCode::HandlerError), 5)), TurnAction::NextStep));
    assert_eq!(conv.len(), 5);
}

#[test]
fn the_twenty_sixth_call_is_not_run() {
    let reg = registry();
    let mut conv: Vec<Message> = Vec::new();
    let mut st = TurnState::new(None);
    turn_next(&mut st, &reg, &mut conv, begin());
    let calls = (0..30).map(|i| call(i, "memory__show", "{}")).collect();
    let mut action = turn_next(&mut st, &reg, &mut conv, TurnEvent::StepDone { cancelled: false, calls });
    let mut runs = 0;
    while let TurnAction::RunTool { .. } = action {
        runs += 1;
        action = turn_next(&mut st, &reg, &mut conv, done(Ok("{}".into()), 100 + runs));
    }
    assert_eq!(runs, 25);
    let (stop, n) = finish_of(action);
    assert_eq!(stop, StopReason::ToolCallLimit);
    assert_eq!(n, 26);
    assert_eq!(conv.len(), 25);
}

#[test]
fn cancellation_and_the_deadline_stop_a_turn() {
    let reg = registry();
    let mut conv: Vec<Message> = Vec::new();
    let mut st = TurnState::new(None);
    let ev = TurnEvent::Begin { cancelled: true, deadline_passed: true };
    assert_eq!(finish_of(turn_next(&mut st, &reg, &mut conv, ev)), (StopReason::UserAborted, 0));
    let mut st = TurnState::new(None);
    let ev = TurnEvent::Begin { cancelled: false, deadline_passed: true };
    assert_eq!(finish_of(turn_next(&mut st, &reg, &mut conv, ev)), (StopReason::TurnTimeout, 0));
    let mut st = TurnState::new(None);
    turn_next(&mut st, &reg, &mut conv, begin());
    let calls = vec![call(0, "memory__show", "{}")];
    let ev = TurnEvent::StepDone { cancelled: true, calls };
    assert_eq!(finish_of(turn_next(&mut st, &reg, &mut conv, ev)), (StopReason::UserAborted, 0));
}

#[test]
fn a_failed_stream_or_a_stray_event_fails_the_turn() {
    let reg = registry();
    let mut conv: Vec<Message> = Vec::new();
    let mut st = TurnState::new(None);
    turn_next(&mut st, &reg, &mut conv, begin());
    match turn_next(&mut st, &reg, &mut conv, TurnEvent::StepFailed { message: "断线".into() }) {
        TurnAction::Fail { error: LoopError::Model(m) } => assert_eq!(m, "断线"),
        _ => panic!("expected a model failure"),
    }
    let mut st = TurnState::new(None);
    match turn_next(&mut st, &reg, &mut conv, done(Ok("{}".into()), 1)) {
        TurnAction::Fail { error: LoopError::Internal(m) } => assert_eq!(m, "回合状态与事件不符"),
        _ => panic!("expected an internal failure"),
    }
    assert!(conv.is_empty());
}

#[test]
fn a_finished_bubble_with_text_is_reported() {
    let mut conv: Vec<Message> = Vec::new();
    let mut step = StepState::new();
    step.apply(&mut conv, ModelChunk::TextDelta("答".into()), MessageId(5), "r".into(), 1);
    match step.apply(&mut conv, ModelChunk::ItemDone { kind: ItemKind::Message }, MessageId(6), "r".into(), 2) {
        Some(StepEvent::MessageCompleted { message_id }) => assert_eq!(message_id, MessageId(5)),
        _ => panic!("expected the completed message"),
    }
    assert_eq!(conv.len(), 1);
    let ev = step.apply(&mut conv, ModelChunk::ItemDone { kind: ItemKind::Message }, MessageId(7), "r".into(), 3);
    assert!(ev.is_none());
}

#[test]
fn attachments_are_read_only_inside_the_uploads_directory() {
    assert!(within_dir("/data/uploads/a.png", "/data/uploads"));
    assert!(within_dir("/data/uploads", "/data/uploads/"));
    assert!(within_dir("/data//uploads/x/y.pdf", "/data/uploads"));
    assert!(!within_dir("/data/uploads2/a.png", "/data/uploads"));
    assert!(!within_dir("/data/a.png", "/data/uploads"));
    assert!(!within_dir("data/uploads/a.png", "/data/uploads"));
}
