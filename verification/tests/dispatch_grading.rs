use mistake_agent::contract::{CallerPolicy, LoadPolicy, ToolError, ToolErrorCode};
use mistake_agent::dispatch::{admit_call, params_verdict, validate};
use mistake_agent::dispatch::{effective_timeout, route_command, task_result, tool_for_call, Caller, CommandRoute, Deadline, TaskEnd};
use mistake_agent::grading::{
    archive_graded_at, get_mistake, grading_candidates, parse_mistake_id, parse_mistake_ids, remove_mistake_at,
    remove_mistakes_at, update_mistake, GradedItem,
};
use mistake_agent::mistake::{Mistake, MistakeId, MistakePatch};
use mistake_agent::registry::{tool_def, CommandDef, EntryKind, Info, Registry, UserDemoPlugin};
use mistake_agent::services::ServiceId;
use mistake_agent::store::MemoryStorage;

fn registry() -> Registry {
    let mut r = Registry::new(vec![ServiceId::Storage]);
    let info = Info {
        namespace: "grading".into(),
        requires: vec![ServiceId::Storage],
        provides: Vec::new(),
        load: LoadPolicy::Eager,
        tools: vec![
            tool_def("get", "取一道错题", CallerPolicy::UserAndModel),
            tool_def("purge", "清空", CallerPolicy::UserOnly),
        ],
        commands: vec![CommandDef {
            name: "export".into(),
            user_visible: true,
            title: None,
            group: None,
            description: "导出".into(),
            params: "{}".into(),
            icon: None,
        }],
        events: Vec::new(),
    };
    r.register(info, false).unwrap();
    assert!(r.begin_load("grading").unwrap());
    r.bind("grading", "get", EntryKind::Tool).unwrap();
    r.bind("grading", "purge", EntryKind::Tool).unwrap();
    r.bind("grading", "export", EntryKind::Command).unwrap();
    r
}

#[test]
fn model_may_not_call_user_only_tools() {
    let r = registry();
    assert_eq!(tool_for_call(&r, "grading::get", Caller::Model).unwrap().full_name, "grading::get");
    assert_eq!(tool_for_call(&r, "grading::purge", Caller::User).unwrap().full_name, "grading::purge");
    let e = tool_for_call(&r, "grading::purge", Caller::Model).unwrap_err();
    assert_eq!(e.code, ToolErrorCode::Forbidden);
    let e = tool_for_call(&r, "grading::nope", Caller::User).unwrap_err();
    assert_eq!(e.code, ToolErrorCode::Internal);
    assert!(e.message.starts_with("注册失败："), "{}", e.message);
}

#[test]
fn commands_route_to_their_entry_else_to_the_tool() {
    let r = registry();
    assert!(matches!(route_command(&r, "grading::export"), CommandRoute::Command(e) if e.full_name == "grading::export"));
    assert!(matches!(route_command(&r, "grading::get"), CommandRoute::Tool));
}

#[test]
fn timeouts_and_deadlines() {
    assert_eq!(effective_timeout(Some(60_000), 30_000, 120_000), 60_000);
    assert_eq!(effective_timeout(None, 30_000, 120_000), 30_000);
    assert_eq!(effective_timeout(Some(600_000), 30_000, 120_000), 120_000);
    let mut d = Deadline { at: 100, turn_end: 1_000 };
    assert!(d.extend(500, 400));
    assert_eq!(d.at, 900);
    assert!(!d.extend(700, 400));
    assert_eq!(d.at, 900);
    assert!(!d.extend(0, u64::MAX));
    assert_eq!(d.turn_end, 1_000);
}

#[test]
fn task_ends_become_tool_results() {
    assert_eq!(task_result(TaskEnd::Returned(Ok::<u8, ToolError>(7))).unwrap(), 7);
    let e = task_result::<u8>(TaskEnd::Crashed("panic".into())).unwrap_err();
    assert_eq!(e.code, ToolErrorCode::Internal);
    assert_eq!(e.message, "handler 任务异常：panic");
    assert_eq!(task_result::<u8>(TaskEnd::TimedOut).unwrap_err().code, ToolErrorCode::Timeout);
    assert_eq!(task_result::<u8>(TaskEnd::Cancelled).unwrap_err().code, ToolErrorCode::Aborted);
}

fn mistake(id: u128) -> Mistake {
    Mistake {
        id: MistakeId(id),
        subject: "数学".into(),
        knowledge_point: "绝对值".into(),
        question: "|-3| = ?".into(),
        student_answer: "-3".into(),
        reference_answer: Some("3".into()),
        is_correct: false,
        analysis: "".into(),
        created_at: 0,
        pinned: false,
        deleted_at: None,
    }
}

const ID1: &str = "00000000-0000-0000-0000-000000000001";

#[test]
fn mistake_ids_are_uuids() {
    assert_eq!(parse_mistake_id(ID1).unwrap(), MistakeId(1));
    let e = parse_mistake_id("abc").unwrap_err();
    assert_eq!(e.code, ToolErrorCode::InvalidParams);
    assert!(e.message.starts_with("非法错题 id："), "{}", e.message);
    assert_eq!(parse_mistake_ids(&vec![ID1.to_string(), "00000000-0000-0000-0000-000000000002".into()]).unwrap(), vec![
        MistakeId(1),
        MistakeId(2)
    ]);
    assert!(parse_mistake_ids(&vec![ID1.to_string(), "x".into()]).is_err());
}

#[test]
fn get_update_and_remove_through_the_tools() {
    let mut s = MemoryStorage::new();
    s.save(&mistake(1)).unwrap();
    assert_eq!(get_mistake(&s, ID1).unwrap().question, "|-3| = ?");
    let e = get_mistake(&s, "00000000-0000-0000-0000-000000000009").unwrap_err();
    assert_eq!(e.code, ToolErrorCode::HandlerError);
    assert_eq!(e.message, "错题不存在：00000000-0000-0000-0000-000000000009");

    let patch = MistakePatch {
        subject: None,
        knowledge_point: Some("绝对值的意义".into()),
        question: None,
        student_answer: None,
        reference_answer: None,
        analysis: None,
        is_correct: None,
        pinned: Some(true),
    };
    let m = update_mistake(&mut s, ID1, &patch).unwrap();
    assert_eq!(m.knowledge_point, "绝对值的意义");
    assert!(m.pinned);
    assert_eq!(m.subject, "数学");

    assert_eq!(remove_mistake_at(&mut s, ID1, 50).unwrap(), MistakeId(1));
    assert!(get_mistake(&s, ID1).is_err());
    assert!(remove_mistake_at(&mut s, "00000000-0000-0000-0000-000000000009", 60).is_err());
}

#[test]
fn remove_many_counts_removed() {
    let mut s = MemoryStorage::new();
    s.save(&mistake(1)).unwrap();
    s.save(&mistake(2)).unwrap();
    let n = remove_mistakes_at(&mut s, &vec![ID1.to_string(), "00000000-0000-0000-0000-000000000002".into()], 5).unwrap();
    assert_eq!(n, 2);
    assert!(remove_mistakes_at(&mut s, &vec!["bad".to_string()], 5).is_err());
}

#[test]
fn remove_many_refuses_a_list_with_a_malformed_id_and_removes_nothing() {
    let mut s = MemoryStorage::new();
    s.save(&mistake(1)).unwrap();
    let e = remove_mistakes_at(&mut s, &vec![ID1.to_string(), "bad".to_string(), "worse".to_string()], 5).unwrap_err();
    assert_eq!(e.code, ToolErrorCode::InvalidParams);
    assert!(e.message.starts_with("非法错题 id："));
    assert!(get_mistake(&s, ID1).is_ok(), "整批被拒时一条也不删");
    assert_eq!(remove_mistakes_at(&mut s, &Vec::new(), 5).unwrap(), 0);
}

fn graded(q: &str, correct: bool) -> GradedItem {
    GradedItem {
        question: q.into(),
        student_answer: None,
        reference_answer: Some("  ".into()),
        correct,
        analysis: None,
        subject: Some(" ".into()),
        knowledge_point: None,
    }
}

#[test]
fn graded_homework_archives_wrong_items_with_defaults() {
    let mut s = MemoryStorage::new();
    let items = vec![graded("1+1", true), graded("2+2", false), graded("3+3", false)];
    let sum = archive_graded_at(&mut s, &items, &vec![MistakeId(10), MistakeId(11), MistakeId(12)], 77).unwrap();
    assert_eq!((sum.total, sum.correct_count, sum.wrong_count, sum.archived), (3, 1, 2, 2));
    let m = s.get(&MistakeId(11)).unwrap();
    assert_eq!(m.question, "2+2");
    assert_eq!(m.subject, "未分类");
    assert_eq!(m.knowledge_point, "未标注");
    assert_eq!(m.student_answer, "（未作答）");
    assert_eq!(m.reference_answer, None);
    assert_eq!(m.created_at, 77);
    assert!(s.get(&MistakeId(10)).is_none());
    assert!(s.get(&MistakeId(12)).is_some());
}

#[test]
fn graded_homework_stops_at_a_taken_id() {
    let mut s = MemoryStorage::new();
    s.save(&mistake(11)).unwrap();
    let items = vec![graded("2+2", false)];
    let e = archive_graded_at(&mut s, &items, &vec![MistakeId(11)], 1).unwrap_err();
    assert!(e.message.starts_with("错题归档失败："), "{}", e.message);
}

#[test]
fn grading_reply_candidates() {
    let (t, a, o) = grading_candidates("  结果如下：[{\"correct\":true}] 完  ");
    assert_eq!(t, "结果如下：[{\"correct\":true}] 完");
    assert_eq!(a.as_deref(), Some("[{\"correct\":true}]"));
    assert_eq!(o.as_deref(), Some("{\"correct\":true}"));
    let (_, a, o) = grading_candidates("没有结构");
    assert!(a.is_none() && o.is_none());
    let (_, a, _) = grading_candidates("] 倒序 [");
    assert!(a.is_none());
}

#[test]
fn user_entries_list_visible_tools_then_commands() {
    let mut r = Registry::new(vec![ServiceId::Storage]);
    let mut hidden = tool_def("internal", "内部", CallerPolicy::UserAndModel);
    hidden.user_visible = false;
    let mut shown = tool_def("get", "取一道错题", CallerPolicy::UserAndModel);
    shown.icon = Some("mdi:book".into());
    let info = Info {
        namespace: "grading".into(),
        requires: Vec::new(),
        provides: Vec::new(),
        load: LoadPolicy::Lazy,
        tools: vec![hidden, shown],
        commands: vec![CommandDef {
            name: "export".into(),
            user_visible: true,
            title: Some("导出".into()),
            group: None,
            description: "导出".into(),
            params: "{}".into(),
            icon: None,
        }],
        events: Vec::new(),
    };
    r.register(info, false).unwrap();
    let rows = r.user_entries();
    assert_eq!(rows.len(), 2);
    assert_eq!(rows[0].entry, "grading::get");
    assert_eq!(rows[0].kind, EntryKind::Tool);
    assert_eq!(rows[0].params, "{\"type\":\"object\"}");
    assert_eq!(rows[1].entry, "grading::export");
    assert_eq!(rows[1].kind, EntryKind::Command);
    assert_eq!(rows[1].policy, CallerPolicy::UserOnly);
    assert!(r.begin_load("grading").unwrap());
    r.bind("grading", "get", EntryKind::Tool).unwrap();
    assert_eq!(r.entry_icon("grading::get").as_deref(), Some("mdi:book"));
    assert_eq!(r.entry_icon("grading::nope"), None);
}

#[test]
fn parameters_are_checked_against_the_schema() {
    let mut r = Registry::new(vec![ServiceId::Storage]);
    let mut get = tool_def("get", "取一道错题", CallerPolicy::UserAndModel);
    get.params = r#"{"type":"object","properties":{"id":{"type":"string"}},"required":["id"]}"#.into();
    let mut broken = tool_def("broken", "坏 schema", CallerPolicy::UserAndModel);
    broken.params = r#"{"type": 12}"#.into();
    let info = Info {
        namespace: "grading".into(),
        requires: Vec::new(),
        provides: Vec::new(),
        load: LoadPolicy::Eager,
        tools: vec![get, broken],
        commands: Vec::new(),
        events: Vec::new(),
    };
    r.register(info, false).unwrap();
    assert!(r.begin_load("grading").unwrap());
    r.bind("grading", "get", EntryKind::Tool).unwrap();
    r.bind("grading", "broken", EntryKind::Tool).unwrap();

    assert_eq!(admit_call(&r, "grading::get", r#"{"id":"x"}"#, Caller::Model).unwrap().full_name, "grading::get");
    let e = admit_call(&r, "grading::get", r#"{"id":3}"#, Caller::Model).unwrap_err();
    assert_eq!(e.code, ToolErrorCode::InvalidParams);
    assert!(e.message.starts_with("参数校验失败："), "{}", e.message);
    assert!(e.retryable);
    let e = admit_call(&r, "grading::get", "{}", Caller::User).unwrap_err();
    assert_eq!(e.code, ToolErrorCode::InvalidParams);
    let e = admit_call(&r, "grading::broken", "{}", Caller::User).unwrap_err();
    assert_eq!(e.code, ToolErrorCode::Internal);
    assert!(e.message.starts_with("schema 无效："), "{}", e.message);
    let entry = r.entry("grading::get", EntryKind::Tool).unwrap();
    assert!(validate(entry, r#"{"id":"a"}"#).is_ok());

    assert!(params_verdict(None).is_ok());
    let e = params_verdict(Some((false, "缺少 id".to_string()))).unwrap_err();
    assert_eq!(e.message, "参数校验失败：缺少 id");
    let e = params_verdict(Some((true, "坏".to_string()))).unwrap_err();
    assert_eq!(e.message, "schema 无效：坏");
    assert!(!e.retryable);
}

#[test]
fn the_reference_plugin_registers_and_pings() {
    let mut r = Registry::new(Vec::new());
    r.register(UserDemoPlugin::info(), false).unwrap();
    assert!(r.begin_load("user_demo").unwrap());
    r.bind("user_demo", "ping", EntryKind::Tool).unwrap();
    assert_eq!(admit_call(&r, "user_demo::ping", "{}", Caller::Model).unwrap().full_name, "user_demo::ping");
    assert_eq!(r.entry_title("user_demo::ping").as_deref(), Some("示例工具"));
    let v: serde_json::Value = serde_json::from_str(&UserDemoPlugin::ping()).unwrap();
    assert_eq!(v["reply"], "pong");
}
