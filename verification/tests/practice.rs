use mistake_agent::mistake::MistakeId;
use mistake_agent::practice::{
    archive_if_wrong, check_first_step, difficulty_label, exact_match, history_point, normalize_answer,
    reply_candidates, unparsable_reply, wrong_answer_mistake, CheckParams, CheckStep, Difficulty,
};
use mistake_agent::contract::ToolErrorCode;
use mistake_agent::store::MemoryStorage;

fn params(question: &str, answer: &str, reference: Option<&str>) -> CheckParams {
    CheckParams {
        question: question.into(),
        student_answer: answer.into(),
        reference_answer: reference.map(|s| s.to_string()),
        subject: Some("数学".into()),
        knowledge_point: Some("绝对值".into()),
        kind: None,
        item_id: None,
        difficulty: None,
    }
}

#[test]
fn exact_match_normalizes_and_compares() {
    assert!(exact_match(" 3 ", "3"));
    assert!(exact_match("ABC", "abc"));
    assert!(exact_match("a  b", "a b"));
    assert!(!exact_match("3", "4"));
}

#[test]
fn difficulty_label_maps_all_tiers() {
    assert!(difficulty_label(Difficulty::Basic).contains("basic"));
    assert!(difficulty_label(Difficulty::Variant).contains("variant"));
    assert!(difficulty_label(Difficulty::Advanced).contains("advanced"));
}

#[test]
fn normalize_answer_collapses_and_lowercases() {
    assert_eq!(normalize_answer("  Hello \t  World  "), "hello world");
    assert_eq!(normalize_answer(""), "");
    assert_eq!(normalize_answer("ÄB"), "äb");
}

#[test]
fn check_exact_match_skips_model() {
    let p = params("|-3| = ?", " 3 ", Some("3"));
    match check_first_step(&p, false).unwrap() {
        CheckStep::Exact { analysis } => assert_eq!(analysis, "参考答案对拍一致，作答正确。"),
        _ => panic!("应直接判对"),
    }
}

#[test]
fn check_exact_match_english_mode_returns_english() {
    let p = params("The sun is bright.", "sunny", Some("sunny"));
    match check_first_step(&p, true).unwrap() {
        CheckStep::Exact { analysis } => {
            assert_eq!(analysis, "The answer matches the reference answer and is correct.")
        }
        _ => panic!("应直接判对"),
    }
}

#[test]
fn check_rejects_empty_question_or_answer() {
    let err = check_first_step(&params("1+1=?", "", None), false).unwrap_err();
    assert_eq!(err.code, ToolErrorCode::InvalidParams);
    assert_eq!(err.message, "question 与 student_answer 不能为空");
    assert!(check_first_step(&params("  ", "2", None), false).is_err());
}

#[test]
fn check_wrong_answer_goes_to_model_with_prompt() {
    let mut p = params(" |-3| = ? ", " -3 ", Some(" 3 "));
    p.kind = Some(" 填空 ".into());
    match check_first_step(&p, false).unwrap() {
        CheckStep::Model { prompt } => {
            assert_eq!(prompt, "题目：|-3| = ?\n学生作答：-3\n参考答案：3\n题型：填空")
        }
        _ => panic!("应交给模型"),
    }
    let free = params("证明 △ABC ≅ △DEF", "SAS", None);
    match check_first_step(&free, false).unwrap() {
        CheckStep::Model { prompt } => assert_eq!(prompt, "题目：证明 △ABC ≅ △DEF\n学生作答：SAS"),
        _ => panic!("应交给模型"),
    }
}

#[test]
fn wrong_answer_is_archived_with_defaults() {
    let mut store = MemoryStorage::new();
    let mut p = params("|-3| = ?", "-3", Some(" 3 "));
    p.subject = Some("  ".into());
    p.knowledge_point = None;
    let archived = archive_if_wrong(&mut store, &p, false, "正确答案是 3", MistakeId(7), 100).unwrap();
    assert!(archived);
    let m = store.get(&MistakeId(7)).unwrap();
    assert_eq!(m.subject, "未分类");
    assert_eq!(m.knowledge_point, "未标注");
    assert_eq!(m.reference_answer.as_deref(), Some("3"));
    assert!(!m.is_correct);
    assert_eq!(m.analysis, "正确答案是 3");
    assert_eq!(history_point(&p), "未标注");
    // a correct answer archives nothing
    assert_eq!(archive_if_wrong(&mut store, &p, true, "对", MistakeId(8), 100).unwrap(), false);
    assert!(store.get(&MistakeId(8)).is_none());
    // the same id twice is a handler error
    let err = archive_if_wrong(&mut store, &p, false, "x", MistakeId(7), 100).unwrap_err();
    assert_eq!(err.code, ToolErrorCode::HandlerError);
    assert!(err.message.starts_with("错题归档失败：已存在："));
}

#[test]
fn wrong_answer_mistake_keeps_given_fields() {
    let p = params("q", "a", None);
    let m = wrong_answer_mistake(&p, "why", MistakeId(1), 5);
    assert_eq!(m.subject, "数学");
    assert_eq!(m.knowledge_point, "绝对值");
    assert_eq!(m.reference_answer, None);
    assert_eq!(m.created_at, 5);
    assert!(!m.pinned);
    assert!(m.deleted_at.is_none());
}

#[test]
fn reply_candidates_salvage_braces() {
    let (t, span) = reply_candidates("  好的：{\"correct\":true} 完毕 ");
    assert_eq!(t, "好的：{\"correct\":true} 完毕");
    assert_eq!(span.as_deref(), Some("{\"correct\":true}"));
    assert_eq!(reply_candidates("no json").1, None);
    assert_eq!(reply_candidates("} {").1, None);
}

#[test]
fn unparsable_reply_keeps_two_hundred_chars() {
    let long: String = std::iter::repeat('错').take(250).collect();
    let e = unparsable_reply(&long);
    assert_eq!(e.code, ToolErrorCode::HandlerError);
    assert_eq!(e.message.chars().count(), "判分结果无法解析：".chars().count() + 200);
}
