//! Free-form exercise generation by the model, when no template matches:
//! the prompt it gets, the exercise made of its answer, and the retries
//! that a diagram failing the solvability check earns.
use vstd::prelude::*;

use crate::contract::{ToolError, ToolErrorCode};
use crate::practice::{difficulty_label, difficulty_text, Difficulty};
use crate::text::{concat2, owned, push_decimal, trim, trim_str};

verus! {

/// Attempts a diagram gets before generation gives up.
pub const MAX_GEOMETRY_ATTEMPTS: u32 = 3;

pub open spec fn avoid_prefix() -> Seq<char> {
    "请避开以下近期已做且已掌握的题目（不要出相同或高度相似的题）："@
}

/// `items` joined by `sep`.
pub open spec fn joined(items: Seq<Seq<char>>, sep: Seq<char>) -> Seq<char>
    decreases items.len(),
{
    if items.len() == 0 {
        Seq::empty()
    } else if items.len() == 1 {
        items[0]
    } else {
        joined(items.drop_last(), sep) + sep + items.last()
    }
}

/// The generation request: the knowledge point and the tier, then the
/// feedback on a failed diagram, then the mastered exercises to avoid, one
/// per line.
pub open spec fn generate_prompt_of(kp: Seq<char>, d: Difficulty, mastered: Seq<Seq<char>>, feedback: Option<Seq<char>>) -> Seq<char> {
    let head = "知识点："@ + trim(kp) + "\n难度："@ + difficulty_text(d);
    let with_feedback = match feedback {
        Some(f) => head + "\n"@ + f,
        None => head,
    };
    if mastered.len() > 0 {
        with_feedback + "\n"@ + avoid_prefix() + joined(mastered, "、"@)
    } else {
        with_feedback
    }
}

pub fn generate_prompt(knowledge_point: &str, difficulty: Difficulty, mastered: &Vec<String>, feedback: Option<&str>) -> (r: String)
    ensures
        r@ == generate_prompt_of(
            knowledge_point@,
            difficulty,
            mastered@.map_values(|s: String| s@),
            match feedback {
                Some(f) => Some(f@),
                None => None,
            },
        ),
{
    let ghost ms = mastered@.map_values(|s: String| s@);
    let mut out = concat2("知识点：", trim_str(knowledge_point).as_str());
    out.append("\n难度：");
    out.append(difficulty_label(difficulty));
    match feedback {
        Some(f) => {
            out.append("\n");
            out.append(f);
        },
        None => {},
    }
    if mastered.len() > 0 {
        out.append("\n");
        out.append("请避开以下近期已做且已掌握的题目（不要出相同或高度相似的题）：");
        let ghost base = out@;
        let mut i: usize = 0;
        while i < mastered.len()
            invariant
                ms == mastered@.map_values(|s: String| s@),
                i <= mastered@.len(),
                out@ == base + joined(ms.take(i as int), "、"@),
            decreases mastered.len() - i,
        {
            let ghost before = out@;
            proof {
                assert(ms.take(i + 1).drop_last() =~= ms.take(i as int));
                assert(ms.take(i + 1).last() == mastered@[i as int]@);
            }
            if i > 0 {
                out.append("、");
            }
            out.append(mastered[i].as_str());
            proof {
                if i == 0 {
                    assert(ms.take(0) =~= Seq::<Seq<char>>::empty());
                    assert(ms.take(1).len() == 1);
                    assert(out@ =~= base + ms.take(1)[0]);
                } else {
                    assert(out@ =~= base + (joined(ms.take(i as int), "、"@) + "、"@ + mastered@[i as int]@));
                }
            }
            i = i + 1;
        }
        proof {
            assert(ms.take(mastered@.len() as int) =~= ms);
        }
    }
    out
}

/// What the model answered, read from its JSON; the diagram is JSON text.
#[derive(Debug)]
pub struct GeneratedItem {
    pub knowledge_point: String,
    pub question_text: String,
    pub answer_spec: String,
    pub diagram_spec: Option<String>,
}

/// An exercise as the practice tools hand it out.
#[derive(Debug)]
pub struct PracticeItem {
    pub knowledge_point: String,
    pub template_id: String,
    pub difficulty: Difficulty,
    pub question_text: String,
    pub answer_spec: String,
    pub diagram_spec: Option<String>,
    pub source: Option<String>,
}

/// The exercise of a free-form answer: the knowledge point trimmed, marked
/// as free-form, of the tier asked for, without a source.
pub fn freeform_item(item: GeneratedItem, difficulty: Difficulty) -> (p: PracticeItem)
    ensures
        p.knowledge_point@ == trim(item.knowledge_point@),
        p.template_id@ == "llm_freeform"@,
        p.difficulty == difficulty,
        p.question_text@ == item.question_text@,
        p.answer_spec@ == item.answer_spec@,
        crate::message::opt_str(p.diagram_spec) == crate::message::opt_str(item.diagram_spec),
        p.source is None,
{
    PracticeItem {
        knowledge_point: trim_str(item.knowledge_point.as_str()),
        template_id: owned("llm_freeform"),
        difficulty,
        question_text: item.question_text,
        answer_spec: item.answer_spec,
        diagram_spec: item.diagram_spec,
        source: None,
    }
}

/// How the solvability check of a diagram came out.
pub enum DiagramCheck {
    Passed,
    /// The diagram is not solvable, for this reason.
    Failed(String),
    /// The checker is not connected or timed out.
    Unavailable,
    /// The checker failed otherwise; its message.
    Broken(String),
}

/// What to do with a generated exercise.
pub enum GenerateNext {
    /// Hand it out; whether its diagram passed the check.
    Accept { checked: bool },
    /// Generate again, telling the model why.
    Retry { feedback: String },
    Fail(ToolError),
}

pub open spec fn retry_feedback(attempt: nat, reason: Seq<char>) -> Seq<char> {
    "上一版几何图形未通过可解性校验（第 "@ + crate::text::decimal(attempt + 1) + " 次）："@ + reason
        + "。请修正点坐标/线段/圆/直角标记等图形数据后重新出题"@
}

pub open spec fn exhausted_message() -> Seq<char> {
    "几何图形连续 3 次未通过可解性校验，请调整题目表述或更换知识点后重试"@
}

/// After generation attempt `attempt` (from 0): an exercise without a
/// diagram is handed out unchecked; a passed diagram checked; an unreachable
/// checker lets it through unchecked; a broken checker fails the call; a
/// failed diagram is retried with the reason while attempts are left.
pub fn generation_step(attempt: u32, has_diagram: bool, check: DiagramCheck) -> (r: GenerateNext)
    requires
        attempt < MAX_GEOMETRY_ATTEMPTS,
    ensures
        !has_diagram ==> r matches GenerateNext::Accept { checked: false },
        has_diagram ==> match check {
            DiagramCheck::Passed => r matches GenerateNext::Accept { checked: true },
            DiagramCheck::Unavailable => r matches GenerateNext::Accept { checked: false },
            DiagramCheck::Broken(m) => r matches GenerateNext::Fail(e) && e.code == ToolErrorCode::HandlerError && e.message@
                == "几何校验执行失败："@ + m@,
            DiagramCheck::Failed(reason) => if attempt + 1 < MAX_GEOMETRY_ATTEMPTS {
                r matches GenerateNext::Retry { feedback } && feedback@ == retry_feedback(attempt as nat, reason@)
            } else {
                r matches GenerateNext::Fail(e) && e.code == ToolErrorCode::HandlerError && e.message@ == exhausted_message()
            },
        },
{
    if !has_diagram {
        return GenerateNext::Accept { checked: false };
    }
    match check {
        DiagramCheck::Passed => GenerateNext::Accept { checked: true },
        DiagramCheck::Unavailable => GenerateNext::Accept { checked: false },
        DiagramCheck::Broken(m) => {
            let text = concat2("几何校验执行失败：", m.as_str());
            GenerateNext::Fail(ToolError::handler(text.as_str()))
        },
        DiagramCheck::Failed(reason) => {
            if attempt + 1 < MAX_GEOMETRY_ATTEMPTS {
                let mut f = owned("上一版几何图形未通过可解性校验（第 ");
                push_decimal(&mut f, (attempt + 1) as usize);
                f.append(" 次）：");
                f.append(reason.as_str());
                f.append("。请修正点坐标/线段/圆/直角标记等图形数据后重新出题");
                GenerateNext::Retry { feedback: f }
            } else {
                GenerateNext::Fail(ToolError::handler("几何图形连续 3 次未通过可解性校验，请调整题目表述或更换知识点后重试"))
            }
        },
    }
}

// ---------- routing a generation request ----------

/// Where a generation request ends.
pub enum GenerateOutcome {
    /// An exercise: from a template (`source` none), the exam pool
    /// (`exam_pool`) or the model (`llm`, with whether its diagram passed).
    Item { item: PracticeItem, source: Option<String>, geometry_checked: Option<bool> },
    /// No exercise: the message, and whether the supported knowledge points
    /// are listed beside it.
    Miss { message: String, supported: bool },
    /// The model must generate one; call again with its result.
    AskModel,
}

pub open spec fn blank_point_message() -> Seq<char> {
    "knowledge_point 不能为空"@
}

pub open spec fn exam_miss_message() -> Seq<char> {
    "真题池暂未收录该知识点的未做题目；可改用基础/同类变式/综合拔高难度，或换用支持的知识点。"@
}

pub open spec fn mastered_miss_prefix() -> Seq<char> {
    "该知识点近期已练习且掌握，模型出新题失败："@
}

pub open spec fn unmatched_miss_prefix() -> Seq<char> {
    "模板未命中且模型生成失败："@
}

/// The end of a request that goes to the model: `AskModel` until its result
/// is there; then its exercise (source `llm`), or a miss with the supported
/// points and `prefix` before the model's error.
pub open spec fn model_outcome_ok(
    llm: Option<Result<(PracticeItem, bool), ToolError>>,
    prefix: Seq<char>,
    r: Result<GenerateOutcome, ToolError>,
) -> bool {
    match llm {
        None => r matches Ok(GenerateOutcome::AskModel),
        Some(Ok((it, checked))) => r matches Ok(GenerateOutcome::Item { item, source, geometry_checked }) && item == it
            && crate::message::opt_str(source) == Some("llm"@) && geometry_checked == Some(checked),
        Some(Err(e)) => r matches Ok(GenerateOutcome::Miss { message, supported }) && message@ == prefix + e.message@
            && supported,
    }
}

/// `practice::generate`: a blank knowledge point is an invalid parameter;
/// the exam tier draws from the pool only (`pool`, the draw) and otherwise
/// misses; a template exercise (`template`) not recently mastered is handed
/// out as it is; a mastered one, or no template, goes to the model (`llm`,
/// its result once asked).
pub fn generate_route(
    difficulty: Difficulty,
    knowledge_point: &str,
    pool: Option<PracticeItem>,
    template: Option<PracticeItem>,
    template_mastered: bool,
    llm: Option<Result<(PracticeItem, bool), ToolError>>,
) -> (r: Result<GenerateOutcome, ToolError>)
    ensures
        trim(knowledge_point@).len() == 0 ==> (r matches Err(e) && e.code == ToolErrorCode::InvalidParams && e.message@
            == blank_point_message() && e.retryable),
        trim(knowledge_point@).len() > 0 && difficulty == Difficulty::Exam ==> match pool {
            Some(p) => r matches Ok(GenerateOutcome::Item { item, source, geometry_checked }) && item == p
                && crate::message::opt_str(source) == Some("exam_pool"@) && geometry_checked is None,
            None => r matches Ok(GenerateOutcome::Miss { message, supported }) && message@ == exam_miss_message()
                && !supported,
        },
        trim(knowledge_point@).len() > 0 && difficulty != Difficulty::Exam ==> match template {
            Some(t) => if template_mastered {
                model_outcome_ok(llm, mastered_miss_prefix(), r)
            } else {
                r matches Ok(GenerateOutcome::Item { item, source, geometry_checked }) && item == t && source is None
                    && geometry_checked is None
            },
            None => model_outcome_ok(llm, unmatched_miss_prefix(), r),
        },
{
    let kp = trim_str(knowledge_point);
    if kp.unicode_len() == 0 {
        return Err(ToolError::invalid_params("knowledge_point 不能为空"));
    }
    let exam = match difficulty {
        Difficulty::Exam => true,
        _ => false,
    };
    if exam {
        return match pool {
            Some(p) => Ok(GenerateOutcome::Item { item: p, source: Some(owned("exam_pool")), geometry_checked: None }),
            None => Ok(
                GenerateOutcome::Miss {
                    message: owned("真题池暂未收录该知识点的未做题目；可改用基础/同类变式/综合拔高难度，或换用支持的知识点。"),
                    supported: false,
                },
            ),
        };
    }
    let prefix: &str = match &template {
        Some(_) => {
            if !template_mastered {
                return match template {
                    Some(t) => Ok(GenerateOutcome::Item { item: t, source: None, geometry_checked: None }),
                    None => Ok(GenerateOutcome::AskModel),
                };
            }
            "该知识点近期已练习且掌握，模型出新题失败："
        },
        None => "模板未命中且模型生成失败：",
    };
    match llm {
        None => Ok(GenerateOutcome::AskModel),
        Some(Ok((item, checked))) => Ok(
            GenerateOutcome::Item { item, source: Some(owned("llm")), geometry_checked: Some(checked) },
        ),
        Some(Err(e)) => Ok(GenerateOutcome::Miss { message: concat2(prefix, e.message.as_str()), supported: true }),
    }
}

} // verus!
