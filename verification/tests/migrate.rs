use mistake_agent::message::{Message, MessageId};
use mistake_agent::migrate::{boundary_summary, build_segment, plan_split, split_segments};
use mistake_agent::session::{Goal, SessionKey, SessionMeta, SessionStatus};

fn linked(mut m: Message, parent: Option<u128>, at: i64) -> Message {
    m.parent_id = parent.map(MessageId);
    m.created_at = at;
    m
}

/// u1 → a1 → [boundary] → u2 → a2.
fn linear() -> Vec<Message> {
    vec![
        linked(Message::user(MessageId(1), "第一题", 0), None, 10),
        linked(Message::assistant(MessageId(2), "第一题的讲解", 0), Some(1), 11),
        linked(Message::system(MessageId(3), "上一会话梗概：上一轮做了三件事。", 0), Some(2), 12),
        linked(Message::user(MessageId(4), "换一道新题", 0), Some(3), 13),
        linked(Message::assistant(MessageId(5), "新题的讲解", 0), Some(4), 14),
    ]
}

fn ids(v: &[Message]) -> Vec<u128> {
    v.iter().map(|m| m.id.0).collect()
}

#[test]
fn boundary_summary_strips_the_prefix_only_for_handoffs() {
    let v = linear();
    assert_eq!(boundary_summary(&v[2]), Some("上一轮做了三件事。"));
    assert_eq!(boundary_summary(&v[0]), None);
    assert_eq!(boundary_summary(&Message::system(MessageId(9), "交接摘要：旧一代尾标记。", 0)), None);
    assert_eq!(boundary_summary(&Message::system(MessageId(9), "上下文压缩摘要：前文很长。", 0)), None);
}

#[test]
fn splits_linear_session_at_boundary() {
    let v = linear();
    let groups = plan_split(&v).expect("应拆分");
    assert_eq!(groups.len(), 2);
    assert_eq!(ids(&groups[0]), vec![1, 2]);
    assert_eq!(ids(&groups[1]), vec![3, 4, 5]);

    let mut old = SessionMeta::new(SessionKey(100), 0);
    old.active_path = Some(MessageId(4));
    let (head, head_msgs) = build_segment(0, groups[0].iter().map(|m| m.copy()).collect(), &old, SessionKey(201), 999);
    assert_eq!(head.key, SessionKey(201));
    assert_eq!(head.status, SessionStatus::Archived);
    assert_eq!(head.archived_at, Some(999));
    assert_eq!(head.active_path, None);
    assert_eq!(head.created_at, 10);
    assert_eq!(head.last_activity_at, 11);
    assert_eq!(head.title.as_deref(), Some("第一题"));
    assert_eq!(head_msgs[0].parent_id, None);
    assert_eq!(head_msgs[1].parent_id, Some(MessageId(1)));

    let (tail, tail_msgs) = build_segment(1, groups[1].iter().map(|m| m.copy()).collect(), &old, SessionKey(202), 999);
    assert_eq!(tail_msgs[0].id, MessageId(3), "边界消息 id 应保留");
    assert_eq!(tail_msgs[0].parent_id, None, "段首段外 parent 应置空");
    assert_eq!(tail_msgs[1].parent_id, Some(MessageId(3)));
    assert_eq!(tail.status, SessionStatus::Active);
    assert_eq!(tail.active_path, Some(MessageId(4)));
    assert!(tail.archived_at.is_none(), "继承 Active 的段不写归档时间");
    assert_eq!(tail.goal.as_ref().unwrap().text, "上一轮做了三件事。");
    assert!(tail.title.is_none());
    assert_eq!(tail.last_activity_at, 14);
}

#[test]
fn migration_is_idempotent_on_second_run() {
    let v = linear();
    let groups = plan_split(&v).unwrap();
    let old = SessionMeta::new(SessionKey(100), 0);
    for (idx, g) in groups.into_iter().enumerate() {
        let (_, msgs) = build_segment(idx, g, &old, SessionKey(300 + idx as u128), 5);
        assert!(plan_split(&msgs).is_none(), "拆分后的段落不应再拆");
    }
}

#[test]
fn keeps_sessions_without_boundary_untouched() {
    let v = vec![
        linked(Message::user(MessageId(1), "只有一轮", 0), None, 1),
        linked(Message::assistant(MessageId(2), "回答", 0), Some(1), 2),
        linked(Message::system(MessageId(3), "交接摘要：旧一代尾标记。", 0), Some(2), 3),
        linked(Message::system(MessageId(4), "上下文压缩摘要：前文很长。", 0), Some(3), 4),
    ];
    assert!(plan_split(&v).is_none());
    let groups = split_segments(&v);
    assert_eq!(groups.len(), 1);
    assert_eq!(groups[0].len(), 4);
}

#[test]
fn skips_file_whose_first_message_is_a_boundary() {
    let v = vec![
        linked(Message::system(MessageId(1), "上一会话梗概：首条即边界。", 0), None, 1),
        linked(Message::user(MessageId(2), "边界后的问题", 0), Some(1), 2),
    ];
    assert!(plan_split(&v).is_none());
    let groups = split_segments(&v);
    assert_eq!(groups.len(), 2);
    assert!(groups[0].is_empty());
    assert_eq!(groups[1].len(), 2);
}

#[test]
fn splits_file_whose_first_message_is_a_boundary_when_more_topics_follow() {
    let v = vec![
        linked(Message::system(MessageId(1), "上一会话梗概：第一个话题的摘要。", 0), None, 1),
        linked(Message::user(MessageId(2), "第一个话题的问题", 0), Some(1), 2),
        linked(Message::system(MessageId(3), "上一会话梗概：第二个话题的摘要。", 0), Some(2), 3),
        linked(Message::user(MessageId(4), "第二个话题的问题", 0), Some(3), 4),
    ];
    let groups = plan_split(&v).expect("两条话题应拆成两条独立会话");
    assert_eq!(groups.len(), 3);
    assert!(groups[0].is_empty());
    assert_eq!(groups.iter().filter(|g| !g.is_empty()).count(), 2, "两条话题应拆成两条独立会话");
    assert_eq!(ids(&groups[1]), vec![1, 2]);
    assert_eq!(ids(&groups[2]), vec![3, 4]);
    let mut old = SessionMeta::new(SessionKey(100), 0);
    old.active_path = Some(MessageId(4));
    let (first, _) = build_segment(1, groups[1].iter().map(|m| m.copy()).collect(), &old, SessionKey(1), 9);
    assert_eq!(first.status, SessionStatus::Archived);
    assert_eq!(first.title.as_deref(), Some("第一个话题的问题"));
    assert_eq!(first.goal.as_ref().unwrap().text, "第一个话题的摘要。");
    let (second, _) = build_segment(2, groups[2].iter().map(|m| m.copy()).collect(), &old, SessionKey(2), 9);
    assert_eq!(second.status, SessionStatus::Active);
    assert!(second.title.is_none());
}

#[test]
fn segment_title_prefers_display_text_of_forced_tool_message() {
    let v = vec![
        linked(Message::user_with_display(MessageId(1), "请调用工具 grading::list 处理当前请求。", Some("看看我的错题本"), 0), None, 1),
        linked(Message::system(MessageId(2), "上一会话梗概：边界。", 0), Some(1), 2),
        linked(Message::user(MessageId(3), "继续", 0), Some(2), 3),
    ];
    let groups = plan_split(&v).unwrap();
    let old = SessionMeta::new(SessionKey(100), 0);
    let (head, _) = build_segment(0, groups[0].iter().map(|m| m.copy()).collect(), &old, SessionKey(1), 9);
    assert_eq!(head.title.as_deref(), Some("看看我的错题本"));
}

#[test]
fn splits_branched_descendants_by_nearest_boundary() {
    let v = vec![
        linked(Message::user(MessageId(1), "一", 0), None, 1),
        linked(Message::assistant(MessageId(2), "二", 0), Some(1), 2),
        linked(Message::system(MessageId(3), "上一会话梗概：边界一。", 0), Some(2), 3),
        linked(Message::user(MessageId(4), "三", 0), Some(3), 4),
        linked(Message::assistant(MessageId(5), "四", 0), Some(4), 5),
        linked(Message::assistant(MessageId(6), "四之分支", 0), Some(4), 6),
    ];
    let groups = plan_split(&v).unwrap();
    assert_eq!(ids(&groups[0]), vec![1, 2]);
    assert_eq!(ids(&groups[1]), vec![3, 4, 5, 6]);
    let mut old = SessionMeta::new(SessionKey(100), 0);
    old.active_path = Some(MessageId(6));
    old.goal = Some(Goal { text: "老目标".into() });
    let (tail, _) = build_segment(1, groups[1].iter().map(|m| m.copy()).collect(), &old, SessionKey(1), 9);
    assert_eq!(tail.active_path, Some(MessageId(6)), "存活分支指针保留");
    let (head, _) = build_segment(0, groups[0].iter().map(|m| m.copy()).collect(), &old, SessionKey(2), 9);
    assert_eq!(head.goal.as_ref().unwrap().text, "老目标");
}

#[test]
fn children_listed_before_their_boundary_still_join_it() {
    let v = vec![
        linked(Message::user(MessageId(4), "先写入的子消息", 0), Some(3), 4),
        linked(Message::user(MessageId(1), "头部", 0), None, 1),
        linked(Message::system(MessageId(3), "上一会话梗概：边界。", 0), Some(1), 3),
    ];
    let groups = split_segments(&v);
    assert_eq!(ids(&groups[0]), vec![1]);
    assert_eq!(ids(&groups[1]), vec![4, 3]);
}

#[test]
fn cycles_without_a_boundary_fall_to_the_head() {
    let v = vec![
        linked(Message::user(MessageId(1), "甲", 0), Some(2), 1),
        linked(Message::user(MessageId(2), "乙", 0), Some(1), 2),
        linked(Message::system(MessageId(3), "上一会话梗概：别处。", 0), None, 3),
    ];
    let groups = split_segments(&v);
    assert_eq!(ids(&groups[0]), vec![1, 2]);
    assert_eq!(ids(&groups[1]), vec![3]);
}

#[test]
fn segments_listed_children_first_are_not_split_again() {
    let v = vec![
        linked(Message::user(MessageId(4), "先写入的子消息", 0), Some(3), 4),
        linked(Message::user(MessageId(1), "头部", 0), None, 1),
        linked(Message::system(MessageId(3), "上一会话梗概：边界。", 0), Some(1), 3),
        linked(Message::assistant(MessageId(5), "回答", 0), Some(4), 5),
    ];
    let groups = plan_split(&v).expect("应拆分");
    let old = SessionMeta::new(SessionKey(100), 0);
    for (idx, g) in groups.into_iter().enumerate() {
        let (_, msgs) = build_segment(idx, g, &old, SessionKey(400 + idx as u128), 5);
        assert!(plan_split(&msgs).is_none(), "拆分后的段落不应再拆");
    }
}
