use mistake_agent::contract::ToolErrorCode;
use mistake_agent::generate::{
    freeform_item, generate_prompt, generate_route, generation_step, DiagramCheck, GenerateNext, GenerateOutcome, GeneratedItem,
    PracticeItem, MAX_GEOMETRY_ATTEMPTS,
};
use mistake_agent::practice::{reply_candidates, unparsable_generated, Difficulty};

#[test]
fn generation_prompt_lists_point_tier_feedback_and_mastered() {
    let p = generate_prompt("  一元二次方程 ", Difficulty::Basic, &Vec::new(), None);
    assert_eq!(p, "知识点：一元二次方程\n难度：basic（基础：直接套用公式/定理）");
    let p = generate_prompt(
        "圆与切线",
        Difficulty::Advanced,
        &vec!["题一".to_string(), "题二".to_string()],
        Some("上一版不对"),
    );
    assert_eq!(
        p,
        "知识点：圆与切线\n难度：advanced（综合拔高：多步组合、辅助线、跨知识点联动）\n上一版不对\n请避开以下近期已做且已掌握的题目（不要出相同或高度相似的题）：题一、题二"
    );
}

#[test]
fn freeform_items_are_marked() {
    let item = GeneratedItem {
        knowledge_point: " 一元二次方程 ".into(),
        question_text: "解方程 $x^2-3x+2=0$。".into(),
        answer_spec: "$x=1$ 或 $x=2$".into(),
        diagram_spec: None,
    };
    let p = freeform_item(item, Difficulty::Variant);
    assert_eq!(p.knowledge_point, "一元二次方程");
    assert_eq!(p.template_id, "llm_freeform");
    assert_eq!(p.difficulty, Difficulty::Variant);
    assert!(p.diagram_spec.is_none() && p.source.is_none());
}

#[test]
fn diagrams_are_retried_then_given_up() {
    assert!(matches!(generation_step(0, false, DiagramCheck::Failed("x".into())), GenerateNext::Accept { checked: false }));
    assert!(matches!(generation_step(0, true, DiagramCheck::Passed), GenerateNext::Accept { checked: true }));
    assert!(matches!(generation_step(1, true, DiagramCheck::Unavailable), GenerateNext::Accept { checked: false }));
    match generation_step(0, true, DiagramCheck::Failed("圆心不在原点".into())) {
        GenerateNext::Retry { feedback } => assert_eq!(
            feedback,
            "上一版几何图形未通过可解性校验（第 1 次）：圆心不在原点。请修正点坐标/线段/圆/直角标记等图形数据后重新出题"
        ),
        _ => panic!("应重试"),
    }
    assert!(matches!(generation_step(1, true, DiagramCheck::Failed("r".into())), GenerateNext::Retry { .. }));
    match generation_step(MAX_GEOMETRY_ATTEMPTS - 1, true, DiagramCheck::Failed("r".into())) {
        GenerateNext::Fail(e) => {
            assert_eq!(e.code, ToolErrorCode::HandlerError);
            assert_eq!(e.message, "几何图形连续 3 次未通过可解性校验，请调整题目表述或更换知识点后重试");
        },
        _ => panic!("应放弃"),
    }
    match generation_step(0, true, DiagramCheck::Broken("脚本异常".into())) {
        GenerateNext::Fail(e) => assert_eq!(e.message, "几何校验执行失败：脚本异常"),
        _ => panic!("应失败"),
    }
}

/// Reads a generation reply the way the host does: the trimmed reply, else
/// the part between its first '{' and last '}'; an object that names a
/// knowledge point, a question and an answer is an exercise.
fn parse_generated(text: &str) -> Result<serde_json::Value, String> {
    let (whole, slice) = reply_candidates(text);
    let mut tries = vec![whole];
    if let Some(s) = slice {
        tries.push(s);
    }
    for t in tries {
        if let Ok(v) = serde_json::from_str::<serde_json::Value>(&t) {
            if v["knowledge_point"].is_string() && v["question_text"].is_string() && v["answer_spec"].is_string() {
                return Ok(v);
            }
        }
    }
    Err(unparsable_generated(text).message)
}

#[test]
fn parse_accepts_plain_json() {
    let item = parse_generated(
        r#"{"knowledge_point":"一元二次方程","question_text":"解方程 $x^2-3x+2=0$。","answer_spec":"$x=1$ 或 $x=2$","diagram_spec":null}"#,
    )
    .unwrap();
    assert_eq!(item["knowledge_point"], "一元二次方程");
    assert!(item["diagram_spec"].is_null());
}

#[test]
fn parse_recovers_fenced_json() {
    let item = parse_generated(
        r#"好的，题目如下：
```json
{"knowledge_point":"圆与切线","question_text":"如图，PA 是圆 O 的切线，A 为切点。","answer_spec":"PA⊥OA","diagram_spec":{"points":{"O":[0,0],"A":[3,0]},"objects":[{"type":"circle","center":"O","radius":3},{"type":"segment","ends":["O","A"]}],"labels":["O","A"]}}
```"#,
    )
    .unwrap();
    assert_eq!(item["knowledge_point"], "圆与切线");
    let spec = &item["diagram_spec"];
    assert_eq!(spec["points"]["O"][0], 0);
    assert_eq!(spec["objects"].as_array().unwrap()[0]["type"], "circle");
}

#[test]
fn parse_rejects_garbage() {
    let err = parse_generated("抱歉，我无法出题。").unwrap_err();
    assert!(err.contains("无法解析"));
}

fn item(id: &str) -> PracticeItem {
    PracticeItem {
        knowledge_point: "绝对值".into(),
        template_id: id.into(),
        difficulty: Difficulty::Basic,
        question_text: "求 |x-1|=2 的解".into(),
        answer_spec: "x=3 或 x=-1".into(),
        diagram_spec: None,
        source: None,
    }
}

#[test]
fn generation_routes_each_request() {
    let e = generate_route(Difficulty::Basic, "  ", None, None, false, None).err().unwrap();
    assert_eq!(e.code, ToolErrorCode::InvalidParams);
    assert_eq!(e.message, "knowledge_point 不能为空");

    match generate_route(Difficulty::Exam, "绝对值", Some(item("exam_1")), Some(item("t")), false, None).ok().unwrap() {
        GenerateOutcome::Item { item, source, geometry_checked } => {
            assert_eq!(item.template_id, "exam_1");
            assert_eq!(source.as_deref(), Some("exam_pool"));
            assert!(geometry_checked.is_none());
        },
        _ => panic!("exam draws from the pool"),
    }
    match generate_route(Difficulty::Exam, "绝对值", None, None, false, None).ok().unwrap() {
        GenerateOutcome::Miss { message, supported } => {
            assert!(message.starts_with("真题池暂未收录"));
            assert!(!supported);
        },
        _ => panic!("exam misses without a pool item"),
    }
    match generate_route(Difficulty::Variant, "绝对值", None, Some(item("abs_v")), false, None).ok().unwrap() {
        GenerateOutcome::Item { item, source, .. } => {
            assert_eq!(item.template_id, "abs_v");
            assert!(source.is_none());
        },
        _ => panic!("an unmastered template is handed out"),
    }
    assert!(matches!(
        generate_route(Difficulty::Variant, "绝对值", None, Some(item("abs_v")), true, None).ok().unwrap(),
        GenerateOutcome::AskModel
    ));
    match generate_route(Difficulty::Basic, "圆", None, None, false, Some(Ok((item("llm_freeform"), true)))).ok().unwrap() {
        GenerateOutcome::Item { source, geometry_checked, .. } => {
            assert_eq!(source.as_deref(), Some("llm"));
            assert_eq!(geometry_checked, Some(true));
        },
        _ => panic!("the model's item is handed out"),
    }
    let failed = mistake_agent::contract::ToolError::new(ToolErrorCode::HandlerError, "超时", false);
    match generate_route(Difficulty::Basic, "圆", None, None, false, Some(Err(failed))).ok().unwrap() {
        GenerateOutcome::Miss { message, supported } => {
            assert_eq!(message, "模板未命中且模型生成失败：超时");
            assert!(supported);
        },
        _ => panic!("a failed generation misses"),
    }
    let failed = mistake_agent::contract::ToolError::new(ToolErrorCode::HandlerError, "超时", false);
    match generate_route(Difficulty::Basic, "圆", None, Some(item("t")), true, Some(Err(failed))).ok().unwrap() {
        GenerateOutcome::Miss { message, .. } => assert_eq!(message, "该知识点近期已练习且掌握，模型出新题失败：超时"),
        _ => panic!("a failed generation misses"),
    }
}
