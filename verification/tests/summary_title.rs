use mistake_agent::agent::LoopError;
use mistake_agent::interrupt::{Interrupt, InterruptBus};
use mistake_agent::contract::ToolError;
use mistake_agent::message::{AttachmentRef, Message, MessageId, MessageKind};
use mistake_agent::practice::{reply_candidates, unparsable_generated};
use mistake_agent::session::Goal;
use mistake_agent::summary::{
    message_text, sanitize_title, summary_from_reply, summary_request, title_from_reply, title_transcript,
    HandoffSummary, StubSummarizer, StubTitler,
};

fn msgs(n: usize) -> Vec<Message> {
    (0..n)
        .map(|i| {
            if i % 2 == 0 {
                Message::user(MessageId(i as u128 + 1), &format!("问{i}"), 0)
            } else {
                Message::assistant(MessageId(i as u128 + 1), &format!("答{i}"), 0)
            }
        })
        .collect()
}

#[test]
fn short_session_summary_skips_model() {
    assert!(summary_request(&msgs(7), None).is_none());
    let s = StubSummarizer.summarize(&msgs(7), Some(&Goal { text: "复习二次函数".into() }));
    assert_eq!(s, "上一个会话共 7 条消息，会话目标：复习二次函数。");
    assert_eq!(StubSummarizer.summarize(&Vec::new(), None), "上一个会话共 0 条消息，会话目标：（未记录目标）。");
}

#[test]
fn summary_request_lists_the_transcript() {
    let p = summary_request(&msgs(8), Some(&Goal { text: "错题复盘".into() })).unwrap();
    assert_eq!(
        p,
        "目标：错题复盘\n\n对话：\n用户：问0\n助手：答1\n用户：问2\n助手：答3\n用户：问4\n助手：答5\n用户：问6\n助手：答7\n"
    );
    let p = summary_request(&msgs(8), None).unwrap();
    assert!(p.starts_with("目标：（未记录目标）\n\n对话：\n"));
}

#[test]
fn summary_transcript_is_cut_at_the_byte_budget() {
    let mut v = msgs(8);
    v.push(Message::user(MessageId(100), &"长".repeat(5000), 0));
    v.push(Message::user(MessageId(101), "不会出现", 0));
    let p = summary_request(&v, None).unwrap();
    assert!(p.ends_with("助手：答7\n…（已截断）"), "{p}");
    assert!(!p.contains("不会出现"));
}

#[test]
fn tool_lines_show_the_debug_result() {
    let ok = Message::tool_call(MessageId(1), "memory::show", "{}".into(), Ok("[1]".into()), 0);
    assert_eq!(message_text(&ok), "工具：memory::show 参数 {} 结果 Ok(\"[1]\")");
    let err = Message::tool_call(MessageId(2), "memory::wipe", "{}".into(), Err(ToolError::forbidden()), 0);
    assert!(message_text(&err).starts_with("工具：memory::wipe 参数 {} 结果 Err("));
    let sys = Message::system(MessageId(3), "规则", 0);
    assert_eq!(message_text(&sys), "系统：规则");
}

#[test]
fn summarizer_falls_back_on_model_error_or_blank_reply() {
    let v = msgs(9);
    let goal = Goal { text: "几何".into() };
    assert_eq!(summary_from_reply(None, &v, Some(&goal)), "上一个会话共 9 条消息，会话目标：几何。");
    assert_eq!(summary_from_reply(Some("  \n "), &v, None), "上一个会话共 9 条消息，会话目标：（未记录目标）。");
    assert_eq!(summary_from_reply(Some("  做了三道题。 "), &v, None), "做了三道题。");
    let long = "摘".repeat(400);
    assert_eq!(summary_from_reply(Some(&long), &v, None).chars().count(), 300);
    let h = HandoffSummary { text: "做了三道题。".into() };
    assert_eq!(h.clone().text, "做了三道题。");
}

#[test]
fn title_transcript_uses_visible_text_and_first_six() {
    let mut v = vec![Message::user_with_display(MessageId(1), "请调用工具 practice::check 处理当前请求。", Some("帮我批改"), 0)];
    v.extend(msgs(8).into_iter().skip(1));
    let t = title_transcript(&v);
    assert_eq!(t, "用户：帮我批改\n助手：答1\n用户：问2\n助手：答3\n用户：问4\n助手：答5\n");
    let long = vec![Message::user(MessageId(1), &"长".repeat(2000), 0)];
    assert_eq!(title_transcript(&long), "");
}

#[test]
fn titles_are_cleaned() {
    assert_eq!(sanitize_title("\n  “二次函数复习。”  \n其余"), "二次函数复习");
    assert_eq!(sanitize_title("《几何》"), "几何");
    assert_eq!(sanitize_title("   \n\n"), "");
    assert_eq!(sanitize_title(&"题".repeat(50)).chars().count(), 40);
    assert_eq!(title_from_reply(Some("\"错题整理\"")), "错题整理");
    assert_eq!(title_from_reply(None), "");
}

#[test]
fn stub_titler_uses_first_user_message() {
    let v = vec![
        Message::assistant(MessageId(1), "你好", 0),
        Message::user_with_display(MessageId(2), "指令", Some("  第一题怎么做  "), 0),
    ];
    assert_eq!(StubTitler.title(&v), "第一题怎么做");
    assert_eq!(StubTitler.title(&Vec::new()), "新会话");
}

#[test]
fn message_constructors() {
    let m = Message::user_with_attachments(
        MessageId(5),
        "看图",
        None,
        vec![AttachmentRef { name: "a.png".into(), mime: "image/png".into(), display_name: None }],
        9,
    );
    assert_eq!(m.id, MessageId(5));
    assert!(m.parent_id.is_none());
    assert_eq!(m.created_at, 9);
    match &m.kind {
        MessageKind::User { text, display_text, attachment_refs } => {
            assert_eq!(text, "看图");
            assert!(display_text.is_none());
            assert_eq!(attachment_refs.len(), 1);
        },
        other => panic!("意外：{other:?}"),
    }
    match Message::tool_call(MessageId(6), "a::b", "{}".into(), Ok("1".into()), 0).kind {
        MessageKind::ToolCall { call_id, entry, .. } => {
            assert_eq!(call_id, "");
            assert_eq!(entry, "a::b");
        },
        other => panic!("意外：{other:?}"),
    }
}

#[test]
fn loop_errors_describe_themselves() {
    assert_eq!(LoopError::Model("超时".into()).describe(), "模型错误：超时");
    assert_eq!(LoopError::Internal("坏了".into()).describe(), "内部错误：坏了");
}

#[test]
fn generated_reply_candidates_recover_fenced_json() {
    let reply = "好的，题目如下：\n```json\n{\"knowledge_point\":\"圆与切线\"}\n```";
    let (whole, inner) = reply_candidates(reply);
    assert!(serde_json::from_str::<serde_json::Value>(&whole).is_err());
    let v: serde_json::Value = serde_json::from_str(&inner.unwrap()).unwrap();
    assert_eq!(v["knowledge_point"], "圆与切线");
    let (_, inner) = reply_candidates("抱歉，我无法出题。");
    assert!(inner.is_none());
    let e = unparsable_generated("抱歉，我无法出题。");
    assert!(e.message.contains("无法解析"));
    assert_eq!(e.message, "模型出题结果无法解析：抱歉，我无法出题。");
}

#[test]
fn interrupts_come_out_in_the_order_sent() {
    let mut bus = InterruptBus::new();
    assert!(bus.take_all().is_empty());
    bus.send(Interrupt::ConfigChanged);
    bus.send(Interrupt::MemoryChanged { path: "math.md".into() });
    let taken = bus.take_all();
    assert_eq!(taken.len(), 2);
    assert!(matches!(taken[0], Interrupt::ConfigChanged));
    assert!(matches!(&taken[1], Interrupt::MemoryChanged { path } if path == "math.md"));
    assert!(bus.take_all().is_empty());
}
