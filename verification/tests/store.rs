use mistake_agent::message::{Message, MessageId, MessageKind};
use mistake_agent::mistake::{Mistake, MistakeFilter, MistakeId, MistakePatch};
use mistake_agent::session::{Goal, SessionKey, SessionMeta, SessionStatus};
use mistake_agent::storage::StorageError;
use mistake_agent::store::MemoryStorage;

fn key(n: u128) -> SessionKey {
    SessionKey(n)
}

fn with_session(k: u128) -> MemoryStorage {
    let mut s = MemoryStorage::new();
    s.create_session(&key(k), &SessionMeta::new(key(k), 10)).unwrap();
    s
}

fn user(id: u128, parent: Option<u128>, text: &str) -> Message {
    let mut m = Message::user(MessageId(id), text, 1);
    m.parent_id = parent.map(MessageId);
    m
}

fn ids(v: &[Message]) -> Vec<u128> {
    v.iter().map(|m| m.id.0).collect()
}

fn mistake(id: u128, subject: &str, correct: bool) -> Mistake {
    Mistake {
        id: MistakeId(id),
        subject: subject.into(),
        knowledge_point: "绝对值".into(),
        question: "|-3| = ?".into(),
        student_answer: "-3".into(),
        reference_answer: Some("3".into()),
        is_correct: correct,
        analysis: "".into(),
        created_at: 0,
        pinned: false,
        deleted_at: None,
    }
}

fn no_patch() -> MistakePatch {
    MistakePatch {
        subject: None,
        knowledge_point: None,
        question: None,
        student_answer: None,
        reference_answer: None,
        analysis: None,
        is_correct: None,
        pinned: None,
    }
}

#[test]
fn create_session_twice_is_refused() {
    let mut s = with_session(1);
    match s.create_session(&key(1), &SessionMeta::new(key(1), 11)) {
        Err(StorageError::AlreadyExists(m)) => assert_eq!(m, "00000000-0000-0000-0000-000000000001"),
        _ => panic!("应已存在"),
    }
    assert_eq!(s.list_sessions().len(), 1);
}

#[test]
fn unknown_session_errors() {
    let mut s = MemoryStorage::new();
    assert!(matches!(s.append_message(&key(9), &user(1, None, "x")), Err(StorageError::SessionNotFound(k)) if k == key(9)));
    assert!(matches!(s.read_path(&key(9)), Err(StorageError::SessionNotFound(_))));
    assert!(s.read_all(&key(9)).is_empty());
    assert!(s.get_session(&key(9)).is_none());
    assert!(matches!(s.set_title(&key(9), Some("t")), Err(StorageError::SessionNotFound(_))));
    assert!(matches!(s.remove_session(&key(9)), Err(StorageError::SessionNotFound(_))));
}

#[test]
fn read_path_follows_the_active_end() {
    let mut s = with_session(1);
    s.append_message(&key(1), &user(1, None, "a")).unwrap();
    s.append_message(&key(1), &user(2, Some(1), "b")).unwrap();
    s.append_message(&key(1), &user(3, Some(1), "c")).unwrap();
    // no end set: every message, in order
    assert_eq!(ids(&s.read_path(&key(1)).unwrap()), vec![1, 2, 3]);
    s.set_active_path(&key(1), Some(MessageId(3))).unwrap();
    assert_eq!(ids(&s.read_path(&key(1)).unwrap()), vec![1, 3]);
    assert_eq!(ids(&s.read_all(&key(1))), vec![1, 2, 3]);
}

#[test]
fn switch_branch_returns_what_read_path_gives() {
    let mut s = with_session(1);
    s.append_message(&key(1), &user(1, None, "a")).unwrap();
    s.append_message(&key(1), &user(2, Some(1), "b")).unwrap();
    s.append_message(&key(1), &user(3, Some(1), "c")).unwrap();
    let p = s.switch_branch(&key(1), MessageId(2)).unwrap();
    assert_eq!(ids(&p), vec![1, 2]);
    assert_eq!(ids(&s.read_path(&key(1)).unwrap()), ids(&p));
    match s.switch_branch(&key(1), MessageId(99)) {
        Err(StorageError::Internal(m)) => assert_eq!(m, "消息不存在"),
        _ => panic!("应为内部错误"),
    }
    assert!(matches!(s.switch_branch(&key(5), MessageId(1)), Err(StorageError::Internal(_))));
}

#[test]
fn derive_branch_edits_a_user_message() {
    let mut s = with_session(1);
    s.append_message(&key(1), &user(1, None, "a")).unwrap();
    let mut reply = Message::assistant(MessageId(2), "ok", 2);
    reply.parent_id = Some(MessageId(1));
    s.append_message(&key(1), &reply).unwrap();
    s.set_active_path(&key(1), Some(MessageId(2))).unwrap();
    let p = s.derive_branch_with(&key(1), MessageId(1), "a2", MessageId(10), 50).unwrap();
    assert_eq!(ids(&p), vec![10]);
    match &p[0].kind {
        MessageKind::User { text, display_text, .. } => {
            assert_eq!(text, "a2");
            assert!(display_text.is_none());
        }
        _ => panic!("应为用户消息"),
    }
    assert_eq!(p[0].created_at, 50);
    assert_eq!(ids(&s.read_path(&key(1)).unwrap()), vec![10]);
    assert_eq!(s.read_all(&key(1)).len(), 3);
    // assistant messages cannot be edited
    s.set_active_path(&key(1), Some(MessageId(2))).unwrap();
    match s.derive_branch_with(&key(1), MessageId(2), "x", MessageId(11), 51) {
        Err(StorageError::Internal(m)) => assert_eq!(m, "只能编辑 user 消息"),
        _ => panic!("应拒绝"),
    }
    match s.derive_branch_with(&key(1), MessageId(10), "x", MessageId(12), 52) {
        Err(StorageError::Internal(m)) => assert_eq!(m, "消息不在活跃路径"),
        _ => panic!("应拒绝"),
    }
}

#[test]
fn splice_compaction_reparents_the_tail() {
    let mut s = with_session(1);
    s.append_message(&key(1), &user(1, None, "a")).unwrap();
    s.append_message(&key(1), &user(2, Some(1), "b")).unwrap();
    let summary = Message::system_with_display(MessageId(9), "摘要", None, 3);
    s.splice_compaction(&key(1), &summary, MessageId(2)).unwrap();
    s.set_active_path(&key(1), Some(MessageId(2))).unwrap();
    assert_eq!(ids(&s.read_path(&key(1)).unwrap()), vec![9, 2]);
    match s.splice_compaction(&key(1), &summary, MessageId(77)) {
        Err(StorageError::Internal(m)) => assert_eq!(m, "保留段首条不存在"),
        _ => panic!("应拒绝"),
    }
}

#[test]
fn session_title_activate_and_remove_roundtrip() {
    let mut s = with_session(1);
    s.set_title(&key(1), Some("  线性代数复习  ")).unwrap();
    assert_eq!(s.get_session(&key(1)).unwrap().title.as_deref(), Some("线性代数复习"));
    s.set_title(&key(1), Some("   ")).unwrap();
    assert!(s.get_session(&key(1)).unwrap().title.is_none());
    s.archive_at(&key(1), 77).unwrap();
    let m = s.get_session(&key(1)).unwrap();
    assert_eq!(m.status, SessionStatus::Archived);
    assert_eq!(m.archived_at, Some(77));
    s.activate(&key(1)).unwrap();
    let m = s.get_session(&key(1)).unwrap();
    assert_eq!(m.status, SessionStatus::Active);
    assert!(m.archived_at.is_none());
    s.set_goal(&key(1), &Goal { text: "g".into() }).unwrap();
    assert_eq!(s.get_session(&key(1)).unwrap().goal.unwrap().text, "g");
    s.set_last_activity(&key(1), 99).unwrap();
    assert_eq!(s.get_session(&key(1)).unwrap().last_activity_at, 99);
    s.remove_session(&key(1)).unwrap();
    assert!(s.get_session(&key(1)).is_none());
    assert!(s.read_all(&key(1)).is_empty());
}

#[test]
fn mistake_save_get_update_remove() {
    let mut s = MemoryStorage::new();
    assert_eq!(s.save(&mistake(1, "数学", false)).unwrap(), MistakeId(1));
    assert!(matches!(s.save(&mistake(1, "数学", false)), Err(StorageError::AlreadyExists(_))));
    assert_eq!(s.get(&MistakeId(1)).unwrap().subject, "数学");
    let patch = MistakePatch { subject: Some("物理".into()), pinned: Some(true), reference_answer: Some(None), ..no_patch() };
    s.update(&MistakeId(1), &patch).unwrap();
    let m = s.get(&MistakeId(1)).unwrap();
    assert_eq!(m.subject, "物理");
    assert!(m.pinned);
    assert!(m.reference_answer.is_none());
    s.remove_at(&MistakeId(1), 5).unwrap();
    assert!(s.get(&MistakeId(1)).is_none());
    match s.update(&MistakeId(1), &no_patch()) {
        Err(StorageError::MistakeNotFound(m)) => assert_eq!(m, "00000000-0000-0000-0000-000000000001"),
        _ => panic!("已删除的错题不能更新"),
    }
    // removing twice is fine; an unknown id is not
    assert!(s.remove_at(&MistakeId(1), 6).is_ok());
    assert!(matches!(s.remove_at(&MistakeId(2), 6), Err(StorageError::MistakeNotFound(_))));
}

#[test]
fn mistake_list_filters_live_entries() {
    let mut s = MemoryStorage::new();
    s.save(&mistake(1, "数学", false)).unwrap();
    s.save(&mistake(2, "英语", false)).unwrap();
    s.save(&mistake(3, "数学", true)).unwrap();
    let all = MistakeFilter { subject: None, knowledge_point: None, is_correct: None };
    assert_eq!(s.list(&all).len(), 3);
    let maths = MistakeFilter { subject: Some("数学".into()), knowledge_point: None, is_correct: Some(false) };
    let got = s.list(&maths);
    assert_eq!(got.len(), 1);
    assert_eq!(got[0].id, MistakeId(1));
    s.remove_at(&MistakeId(2), 1).unwrap();
    assert_eq!(s.list(&all).len(), 2);
}

#[test]
fn remove_many_counts_live_ones_once() {
    let mut s = MemoryStorage::new();
    s.save(&mistake(1, "数学", false)).unwrap();
    s.save(&mistake(2, "数学", false)).unwrap();
    s.remove_at(&MistakeId(2), 1).unwrap();
    let n = s.remove_many_at(&[MistakeId(1), MistakeId(1), MistakeId(2), MistakeId(3)], 9);
    assert_eq!(n, 1);
    assert!(s.get(&MistakeId(1)).is_none());
}

#[test]
fn unknown_session_error_names_the_key_in_uuid_form() {
    let e = StorageError::SessionNotFound(SessionKey(0x0123_4567_89ab_cdef_0123_4567_89ab_cdef));
    assert_eq!(e.describe(), "会话不存在：01234567-89ab-cdef-0123-456789abcdef");
    let e = StorageError::SessionNotFound(SessionKey(0xff));
    assert_eq!(e.describe(), "会话不存在：00000000-0000-0000-0000-0000000000ff");
}
