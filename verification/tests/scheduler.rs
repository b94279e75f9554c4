use mistake_agent::message::{Message, MessageId, MessageKind};
use mistake_agent::scheduler::{
    apply_generated_title, create_new_session_with, fallback_title, maybe_generate_title, on_new_message_at,
    delete_session_with, open_existing_at, persist_turn_messages, stub_summary, title_request, SchedulerError,
};
use mistake_agent::session::{Goal, SessionKey, SessionStatus};
use mistake_agent::store::MemoryStorage;

const HOUR: i64 = 3_600_000;

fn active_count(s: &MemoryStorage) -> usize {
    s.list_sessions().iter().filter(|m| m.status == SessionStatus::Active).count()
}

fn say(s: &mut MemoryStorage, text: &str, now: i64, key: u128, id: u128) -> (SessionKey, Vec<Message>, Option<i64>) {
    let (ctx, idle) = on_new_message_at(s, text, None, Vec::new(), now, now, SessionKey(key), MessageId(id))
        .ok()
        .unwrap();
    (ctx.session_key, ctx.messages, idle)
}

fn reply(s: &mut MemoryStorage, k: SessionKey, id: u128, text: &str) {
    let path = s.read_path(&k).ok().unwrap();
    let mut m = Message::assistant(MessageId(id), text, 0);
    m.parent_id = path.last().map(|m| m.id);
    s.append_message(&k, &m).ok().unwrap();
}

#[test]
fn first_message_creates_session() {
    let mut s = MemoryStorage::new();
    let (k, msgs, idle) = say(&mut s, "帮我看看这道题", 0, 1, 100);
    assert_eq!(k, SessionKey(1));
    assert_eq!(msgs.len(), 1);
    assert!(idle.is_none());
    let metas = s.list_sessions();
    assert_eq!(metas.len(), 1);
    assert_eq!(metas[0].status, SessionStatus::Active);
    assert_eq!(metas[0].goal.as_ref().unwrap().text, "帮我看看这道题");
}

#[test]
fn new_message_continues_current_session() {
    let mut s = MemoryStorage::new();
    let (a, _, _) = say(&mut s, "帮我看看这道题", 0, 1, 100);
    let (b, msgs, _) = say(&mut s, "继续讲第二题", 1, 2, 101);
    assert_eq!(a, b);
    assert_eq!(s.list_sessions().len(), 1);
    assert_eq!(msgs.len(), 2);
    assert_eq!(msgs[1].parent_id, Some(MessageId(100)));
}

#[test]
fn idle_timeout_reports_and_continues() {
    let mut s = MemoryStorage::new();
    let (a, _, _) = say(&mut s, "帮我看看这道题", 0, 1, 100);
    let (b, msgs, idle) = say(&mut s, "生成周复习报告", 13 * HOUR, 2, 101);
    assert_eq!(a, b);
    assert_eq!(idle, Some(13 * 3600));
    assert_eq!(active_count(&s), 1);
    assert!(matches!(msgs.last().unwrap().kind, MessageKind::User { .. }));
    let (_, _, idle) = say(&mut s, "再来", 13 * HOUR + 1, 3, 102);
    assert!(idle.is_none());
}

#[test]
fn display_text_persisted_on_forced_tool_message() {
    let mut s = MemoryStorage::new();
    let (ctx, _) = on_new_message_at(
        &mut s,
        "请调用工具 memory::show 处理：数学/向量组的线性相关性",
        Some("翻看记忆：数学/向量组的线性相关性"),
        Vec::new(),
        0,
        0,
        SessionKey(1),
        MessageId(1),
    )
    .ok()
    .unwrap();
    let msgs = s.read_path(&ctx.session_key).ok().unwrap();
    match &msgs[0].kind {
        MessageKind::User { text, display_text, .. } => {
            assert_eq!(text, "请调用工具 memory::show 处理：数学/向量组的线性相关性");
            assert_eq!(display_text.as_deref(), Some("翻看记忆：数学/向量组的线性相关性"));
        }
        _ => panic!("应有 user 消息"),
    }
}

#[test]
fn create_new_session_archives_previous_and_returns_new_key() {
    let mut s = MemoryStorage::new();
    let (old, _, _) = say(&mut s, "帮我看看这道题", 0, 1, 100);
    let created = create_new_session_with(&mut s, None, None, SessionKey(2), MessageId(200), 5, 6).ok().unwrap();
    assert_ne!(created.key, old);
    assert_eq!(created.archived, Some(old));
    assert!(!created.summary_attached);
    let metas = s.list_sessions();
    assert_eq!(metas.len(), 2);
    let archived = metas.iter().find(|m| m.key == old).unwrap();
    assert_eq!(archived.status, SessionStatus::Archived);
    assert_eq!(archived.archived_at, Some(6));
    assert_eq!(active_count(&s), 1);
    assert_eq!(metas.iter().find(|m| m.key == created.key).unwrap().status, SessionStatus::Active);
}

#[test]
fn create_new_session_without_active_session() {
    let mut s = MemoryStorage::new();
    let created =
        create_new_session_with(&mut s, Some(Goal { text: "线性代数".into() }), None, SessionKey(1), MessageId(1), 0, 0)
            .ok()
            .unwrap();
    assert_eq!(created.archived, None);
    assert!(!created.summary_attached);
    let metas = s.list_sessions();
    assert_eq!(metas.len(), 1);
    assert_eq!(metas[0].goal.as_ref().unwrap().text, "线性代数");
}

#[test]
fn carry_summary_attaches_summary_first_and_next_message_hangs_under_it() {
    let mut s = MemoryStorage::new();
    let (old, _, _) = say(&mut s, "帮我看看这道题", 0, 1, 100);
    say(&mut s, "继续讲第二题", 1, 9, 101);
    let all = s.read_all(&old);
    let summary = stub_summary(&all, Some(&Goal { text: "帮我看看这道题".into() }));
    assert_eq!(summary, "上一个会话共 2 条消息，会话目标：帮我看看这道题。");
    let created =
        create_new_session_with(&mut s, None, Some(summary), SessionKey(2), MessageId(200), 5, 5).ok().unwrap();
    assert!(created.summary_attached);
    let msgs = s.read_path(&created.key).ok().unwrap();
    assert_eq!(msgs.len(), 1);
    assert!(matches!(&msgs[0].kind, MessageKind::System { text, .. } if text.contains("上一会话梗概")));
    let old_msgs = s.read_path(&old).ok().unwrap();
    assert!(!old_msgs.iter().any(|m| matches!(&m.kind, MessageKind::System { .. })));
    let (k, msgs, idle) = say(&mut s, "换一道新题", 6, 3, 300);
    assert_eq!(k, created.key);
    assert_eq!(msgs.len(), 2);
    assert_eq!(msgs[1].parent_id, Some(msgs[0].id));
    assert!(idle.is_none());
}

#[test]
fn blank_handoff_is_not_attached() {
    let mut s = MemoryStorage::new();
    let created = create_new_session_with(&mut s, None, Some("   ".into()), SessionKey(1), MessageId(1), 0, 0)
        .ok()
        .unwrap();
    assert!(!created.summary_attached);
    assert!(s.read_path(&created.key).ok().unwrap().is_empty());
}

#[test]
fn open_existing_archives_previous_active_only() {
    let mut s = MemoryStorage::new();
    let (first, _, _) = say(&mut s, "第一次", 7, 1, 100);
    let created = create_new_session_with(&mut s, None, None, SessionKey(2), MessageId(2), 8, 8).ok().unwrap();
    open_existing_at(&mut s, first, 9).ok().unwrap();
    let metas = s.list_sessions();
    assert_eq!(active_count(&s), 1);
    assert_eq!(metas.iter().find(|m| m.key == first).unwrap().status, SessionStatus::Active);
    assert_eq!(metas.iter().find(|m| m.key == created.key).unwrap().status, SessionStatus::Archived);
    assert_eq!(s.get_session(&first).unwrap().last_activity_at, 7);
    match open_existing_at(&mut s, SessionKey(42), 10) {
        Err(SchedulerError::Internal(m)) => assert!(m.starts_with("会话不存在：")),
        _ => panic!("不存在的会话应报错"),
    }
}

#[test]
fn title_generated_once_after_first_turn() {
    let mut s = MemoryStorage::new();
    let (k, _, _) = say(&mut s, "帮我整理线性代数的错题", 0, 1, 100);
    assert!(title_request(&s, &k).is_none());
    assert_eq!(maybe_generate_title(&mut s, &k).ok().unwrap(), None);
    reply(&mut s, k, 101, "好的，先看第一题");
    assert!(title_request(&s, &k).is_some());
    let t = apply_generated_title(&mut s, &k, "线性代数错题整理").ok().unwrap();
    assert_eq!(t.as_deref(), Some("线性代数错题整理"));
    assert_eq!(s.get_session(&k).unwrap().title.as_deref(), Some("线性代数错题整理"));
    assert!(title_request(&s, &k).is_none());
    assert_eq!(apply_generated_title(&mut s, &k, "别的").ok().unwrap(), None);
}

#[test]
fn title_falls_back_to_truncated_first_message() {
    let mut s = MemoryStorage::new();
    let (k, _, _) = say(&mut s, "帮我整理线性代数的错题", 0, 1, 100);
    reply(&mut s, k, 101, "好的");
    let t = apply_generated_title(&mut s, &k, "  ").ok().unwrap();
    assert_eq!(t.as_deref(), Some("帮我整理线性代数的错题"));
}

#[test]
fn title_prefers_display_text_over_model_instruction() {
    let mut s = MemoryStorage::new();
    let (ctx, _) = on_new_message_at(
        &mut s,
        "请调用工具 memory::show 处理：数学/向量组的线性相关性",
        Some("翻看记忆：数学/向量组的线性相关性"),
        Vec::new(),
        0,
        0,
        SessionKey(1),
        MessageId(1),
    )
    .ok()
    .unwrap();
    reply(&mut s, ctx.session_key, 2, "找到了");
    assert_eq!(
        maybe_generate_title(&mut s, &ctx.session_key).ok().unwrap().as_deref(),
        Some("翻看记忆：数学/向量组的线性相关性")
    );
}

#[test]
fn stub_titler_falls_back_without_calling_model() {
    let mut s = MemoryStorage::new();
    let (k, _, _) = say(&mut s, "   ", 0, 1, 100);
    reply(&mut s, k, 101, "嗯");
    assert_eq!(maybe_generate_title(&mut s, &k).ok().unwrap().as_deref(), Some("新会话"));
}

#[test]
fn fallback_title_cuts_forty_chars() {
    let long: String = std::iter::repeat('题').take(50).collect();
    let msgs = vec![Message::assistant(MessageId(1), "x", 0), Message::user(MessageId(2), &long, 0)];
    assert_eq!(fallback_title(&msgs).chars().count(), 40);
    assert_eq!(fallback_title(&Vec::new()), "新会话");
}

#[test]
fn stub_summary_without_goal() {
    let msgs: Vec<Message> = (0..8).map(|i| Message::user(MessageId(i), "消息", 0)).collect();
    assert_eq!(stub_summary(&msgs, None), "上一个会话共 8 条消息，会话目标：（未记录目标）。");
}

#[test]
fn each_turn_extends_the_active_path_by_its_message() {
    let mut s = MemoryStorage::new();
    let (k, _, _) = say(&mut s, "第一题", 0, 1, 100);
    reply(&mut s, k, 200, "先看条件");
    s.set_active_path(&k, Some(MessageId(200))).ok().unwrap();
    let before = s.read_path(&k).ok().unwrap();
    let (_, msgs, _) = say(&mut s, "第二题", 1, 2, 101);
    assert_eq!(msgs.len(), before.len() + 1);
    for (a, b) in before.iter().zip(msgs.iter()) {
        assert_eq!(a.id, b.id);
    }
    assert_eq!(msgs.last().unwrap().id, MessageId(101));
    assert_eq!(msgs.last().unwrap().parent_id, Some(MessageId(200)));
}

fn hung(mut m: Message, parent: u128) -> Message {
    m.parent_id = Some(MessageId(parent));
    m
}

#[test]
fn turn_messages_are_kept_without_switch_calls_and_skipped_summary() {
    let mut s = MemoryStorage::new();
    let (k, _, _) = say(&mut s, "第一题", 0, 1, 10);
    let turn = vec![
        hung(Message::assistant(MessageId(11), "先看条件", 0), 10),
        hung(Message::tool_call(MessageId(12), "session::switch", "{}".into(), Ok("{}".into()), 0), 11),
        hung(Message::assistant(MessageId(13), "继续讲", 0), 12),
        hung(Message::system(MessageId(14), "上下文压缩摘要：……", 0), 13),
    ];
    let last = persist_turn_messages(&mut s, &k, &turn, Some(MessageId(14))).unwrap();
    assert_eq!(last, Some(MessageId(13)));
    let all = s.read_all(&k);
    assert_eq!(all.iter().map(|m| m.id.0).collect::<Vec<_>>(), vec![10, 11, 13]);
    assert_eq!(all[2].parent_id, Some(MessageId(11)), "切换调用下的消息改挂到上一条保留消息");
}

#[test]
fn a_leading_switch_call_leaves_its_parent_as_the_anchor() {
    let mut s = MemoryStorage::new();
    let turn = vec![hung(Message::tool_call(MessageId(20), "session::switch", "{}".into(), Ok("{}".into()), 0), 10)];
    assert_eq!(persist_turn_messages(&mut s, &SessionKey(9), &turn, None), Ok(Some(MessageId(10))));
    let turn = vec![hung(Message::assistant(MessageId(21), "答", 0), 10)];
    assert_eq!(
        persist_turn_messages(&mut s, &SessionKey(9), &turn, None),
        Err("会话不存在：00000000-0000-0000-0000-000000000009".to_string())
    );
}

#[test]
fn delete_active_session_leaves_exactly_one_active() {
    let mut s = MemoryStorage::new();
    let (other, _, _) = say(&mut s, "旧话题", 0, 1, 100);
    let created = create_new_session_with(&mut s, None, None, SessionKey(2), MessageId(200), 5, 5).ok().unwrap();
    let key = created.key;
    assert_eq!(active_count(&s), 1);

    let replacement = delete_session_with(&mut s, &key, SessionKey(3), 9).ok().unwrap().expect("删掉活动会话应补建一条新的");
    assert_ne!(replacement, key);
    let metas = s.list_sessions();
    assert!(metas.iter().all(|m| m.key != key), "被删会话应消失");
    assert_eq!(metas.len(), 2, "另一条会话保留 + 补建的空会话");
    let actives: Vec<SessionKey> =
        metas.iter().filter(|m| m.status == SessionStatus::Active).map(|m| m.key).collect();
    assert_eq!(actives, vec![replacement], "补建后仍只有一条 Active");
    assert!(s.read_all(&replacement).is_empty(), "补建的是空会话");

    assert_eq!(delete_session_with(&mut s, &other, SessionKey(4), 10).ok().unwrap(), None);
    let metas = s.list_sessions();
    assert_eq!(metas.len(), 1);
    assert_eq!(metas[0].key, replacement);
    assert!(matches!(delete_session_with(&mut s, &other, SessionKey(5), 11), Err(SchedulerError::Storage(_))));
}
