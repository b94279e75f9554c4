use mistake_agent::agent::{plan_call, StopReason};
use mistake_agent::audit::{call_record, refused_record, turn_record, AuditRecord, MemoryAuditSink};
use mistake_agent::contract::{CallerPolicy, LoadPolicy, ToolError, ToolErrorCode};
use mistake_agent::dispatch::{admit_call, Caller};
use mistake_agent::kernel::with_session_id;
use mistake_agent::message::{Message, MessageId, MessageKind};
use mistake_agent::practice::{exact_match, normalize_answer};
use mistake_agent::registry::{tool_def, EntryKind, Info, Registry};
use mistake_agent::services::ServiceId;
use mistake_agent::session::SessionKey;

fn registry() -> Registry {
    let mut r = Registry::new(vec![ServiceId::Model]);
    r.register(
        Info {
            namespace: "memory".into(),
            requires: Vec::new(),
            provides: Vec::new(),
            load: LoadPolicy::Eager,
            tools: vec![
                tool_def("show", "翻看", CallerPolicy::UserAndModel),
                tool_def("wipe", "清空", CallerPolicy::UserOnly),
            ],
            commands: Vec::new(),
            events: Vec::new(),
        },
        false,
    )
    .unwrap();
    r.begin_load("memory").unwrap();
    r.bind("memory", "show", EntryKind::Tool).unwrap();
    r.bind("memory", "wipe", EntryKind::Tool).unwrap();
    r
}

#[test]
fn audit_log_keeps_every_record_in_order() {
    let mut log = MemoryAuditSink::new();
    log.append(call_record::<String>("memory::show", Caller::Model, &Ok("{}".into())));
    log.append(call_record::<String>(
        "memory::show",
        Caller::User,
        &Err(ToolError::new(ToolErrorCode::InvalidParams, "缺少 id", true)),
    ));
    log.append(refused_record("memory::wipe", Caller::Model));
    log.append(turn_record(StopReason::Natural, 2));
    let records = log.take();
    assert_eq!(records.len(), 4);
    assert!(log.take().is_empty());
    match &records[1] {
        AuditRecord::EntryPointCall { entry, caller, ok, error } => {
            assert_eq!(entry, "memory::show");
            assert_eq!(*caller, Caller::User);
            assert!(!ok);
            assert_eq!(error.as_deref(), Some("InvalidParams: 缺少 id"));
        },
        _ => panic!("entry point call"),
    }
    assert!(matches!(&records[2], AuditRecord::EntryPointCall { ok: false, error: Some(e), .. } if e == "forbidden"));
    assert!(matches!(&records[3], AuditRecord::TurnEnded { stop_reason, tool_calls: 2 } if stop_reason == "Natural"));
}

#[test]
fn a_forbidden_call_is_not_retryable() {
    let r = registry();
    let e = admit_call(&r, "memory::wipe", "{}", Caller::Model).err().unwrap();
    assert_eq!(e.code, ToolErrorCode::Forbidden);
    assert!(!e.retryable);
}

#[test]
fn streamed_calls_are_planned() {
    let r = registry();
    let p = plan_call(&r, "memory__show", "{ \"q\" : 1 }");
    assert_eq!(p.full, "memory::show");
    assert_eq!(p.params, "{\"q\":1}");
    assert!(p.unknown.is_none());
    let p = plan_call(&r, "nothing__here", "not json");
    assert_eq!(p.full, "");
    assert_eq!(p.params, "{}");
    let e = p.unknown.unwrap();
    assert_eq!(e.code, ToolErrorCode::UnknownTool);
    assert_eq!(e.message, "未知工具：nothing__here");
}

#[test]
fn a_turn_context_names_the_session() {
    let path = vec![Message::user(MessageId(0xab), "题", 0)];
    let ctx = with_session_id(SessionKey(1), path, MessageId(9), 5);
    assert_eq!(ctx.len(), 2);
    match &ctx[0].kind {
        MessageKind::System { text, .. } => assert_eq!(text, "当前会话 ID：00000000-0000-0000-0000-0000000000ab"),
        _ => panic!("system message first"),
    }
    let ctx = with_session_id(SessionKey(2), Vec::new(), MessageId(9), 5);
    match &ctx[0].kind {
        MessageKind::System { text, .. } => assert_eq!(text, "当前会话 ID：00000000-0000-0000-0000-000000000002"),
        _ => panic!("system message first"),
    }
}

#[test]
fn ascii_answers_compare_case_blind() {
    assert!(exact_match(" ABC ", "abc"));
    assert!(!exact_match("3", "4"));
    assert_eq!(normalize_answer("  x  =  3 "), "x = 3");
}
