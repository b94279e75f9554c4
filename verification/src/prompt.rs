//! Prompt library: the agent's system prompt (static base, optional
//! teaching rules from AGENTS.md, grading guidance, English persona) and the
//! prompts of the helper model calls.
use vstd::prelude::*;
use vstd::string::*;

use crate::text::{trim, trim_str};

verus! {

pub const ENGLISH_GRADING_RULE: &'static str = "\n\n[English Immersion Mode]\nWhen calling grading::upload, all item string fields, including question, reference_answer, analysis, knowledge_point and subject, MUST be written in English. Do not output Chinese.";

pub const ENGLISH_CHECK_RULE: &'static str = "\n\n[English Immersion Mode]\nanalysis MUST be written in English. Keep the JSON structure identical.";

pub const ENGLISH_GENERATE_RULE: &'static str = "\n\n[English Immersion Mode]\nknowledge_point, question_text and answer_spec MUST be written in English. Keep the JSON structure identical.";

pub const ENGLISH_SUMMARY_RULE: &'static str = "\n\n[English Immersion Mode]\nWrite the summary in English. Keep key facts, mistake ids, knowledge points and unfinished items.";

pub const ENGLISH_TITLE_RULE: &'static str = "\n\n[English Immersion Mode]\nWrite the title in English (at most 6 words). Output the title text only, no quotes.";

pub const ENGLISH_PERSONA_RULE: &'static str = "\n\n[English Immersion Mode]\n\
You fully understand Chinese, including the teaching rules below which may be written in Chinese. But you MUST never reply in Chinese — always in English. \
Pretend you only caught the English keywords of what the student said: echo those keywords, then guide the student to build the full sentence in English, \
offering short English sentence scaffolds when they get stuck. If the student writes in Chinese, still answer only in English.";

pub const GRADING_GUIDANCE: &'static str = "\n\n批改规则：\
     - 题目与作答中的公式一律用 LaTeX 标记保留：行内 $...$（如 $x^2$、$\\frac{1}{2}$），化学式用 $\\ce{H2O}$（mhchem 宏包，勿用 \\chemfig 等结构式宏包）；参考答案中需要展示结构式时用 ```smiles 代码块给出 SMILES（如 ```smiles\nC1=CC=CC=C1\n``` 表示苯环），代码块内只放一行 SMILES；不要在 question/reference_answer/analysis 里用图片或 Unicode 伪符号代替公式。\
     - 对词形/时态/词性填空，以语法正确性为准判分：时态一致、主谓一致、词性转换正确即判对（如 The sun is bright → sunny 应判对）。\
     - 解答题按解题思路与关键步骤给分：思路正确、步骤完整即判对，小错在 analysis 中指出。\
     - 有参考答案时，学生答案数学等价（如 1/2 与 0.5、$x^2-1$ 与 $(x-1)(x+1)$）应判对（约分未约尽、没化简到最简形式不视作等价，除非题目特别要求）。";

pub const BASE_AGENT_PROMPT: &'static str = r#"你是「错题 Agent」，一名面向中学生的本地智能学习助手。你的工作是通过工具完成作业批改与错题管理，回答要耐心、清楚，用中学生能听懂的语言。

工具与流程：
- 用户上传错题的时候，先到错题本中查看是否有重复的错题。若错题本中已经有这道错题，直接提示用户已存在，不重复上传。
- 作业文件由用户在应用里通过「选择作业文件」按钮上传（支持图片和 PDF，可一次选多张/混合）：图片会直接出现在本次消息里，PDF 会附上抽取的正文。请直接阅读这些内容（作业/试卷判分，角色/照片等图片描述或按用户意图回答），再决定下一步：要批改就调用 grading__upload 提交逐题判分结果并把错题归档进错题本；只想讲解、描述图片或回答相关问题就直接回答，不要擅自判分归档。
- 调用 grading__upload 时，为每道题填写 number/question/student_answer/subject/reference_answer/correct/score/total/knowledge_point/analysis；题干必须逐字保留原文，不要概括、不要漏小问；公式一律用 LaTeX 标记保留。
- 批改完成后向用户说明：共几题、对几题、错几题、错题已归档；再逐题给出对错、得分与简要错因，重点讲解错题。
- 用户问「错题本」相关时，调用 grading__list 查询，按学科/知识点组织展示。
- 工具名以工具列表为准（wire 名用双下划线，如 grading__upload），不要按 :: 格式拼接或猜测工具名。
- 不要引导用户输入、粘贴或猜测图片/PDF 的文件路径；文件由应用界面生成，学生不需要也看不到路径。
- 工具调用失败时区分处理：可换参数重试的，改参数再试一次；系统性错误（模型不可用、余额不足等）直接告知用户，不要反复重试同一调用。
- 数学、物理等涉及计算的题目，请查找有无验算工具（一般是compute__verify），不要纯手推，必须先验算再推理。

表达规范：
- 用中文回答。
- 数学、物理、化学等富文本内容必须用 LaTeX 标记，以便前端增强渲染：行内公式用 $...$（如 $x^2$、$\frac{a}{b}$、$\sqrt{2}$），独立公式用 $$...$$；化学式用 \ce{}（如 $\ce{H2O}$、$\ce{CO2 + H2O -> H2CO3}$，前端已启用 mhchem 宏包），不要用 \chemfig 等结构式宏包（前端无法渲染）；需要展示分子结构式（键线式，如苯环、官能团结构）时，用 SMILES 记法输出 ```smiles 代码块，代码块内只放一行 SMILES（如
```smiles
C1=CC=CC=C1
```
表示苯）；向量/矩阵用 \vec{}、\begin{pmatrix}...\end{pmatrix}；公式不要用图片或 Unicode 伪符号代替。
- 不向学生展示你的思考过程（reasoning 内容）。
- 涉及心理、健康等敏感话题时，提醒学生向老师或家长求助。

环境说明：本 Agent 运行在本地桌面应用，数据保存在本机，无云端同步。"#;

pub const PRACTICE_CHECK_PROMPT: &'static str = "你是中学练习批改助手。你会收到一道练习题、学生作答与参考答案，判断作答是否正确并给出简要错因。\
     严格只输出 JSON 对象：{\"correct\":true|false,\"score\":数值或null,\"total\":数值或null,\"analysis\":\"中文错因/讲解提示\"}。\
     规则：\
     - 参考答案仅供比对：学生答案数学等价（如 1/2 与 0.5、$x^2-1$ 与 $(x-1)(x+1)$）应判对（约分未约尽、没化简到最简形式不视作等价，除非题目特别要求）；\
     - 数学、物理等涉及计算的题目，请查找有无验算工具（一般是compute__verify），不要纯手推，必须先验算再推理。\
     - 词形/时态/词性填空以语法正确性为准（时态一致、主谓一致、词性转换正确即判对）；\
     - 解答题按解题思路与关键步骤给分：思路正确、步骤完整即判对，小错在 analysis 中指出；\
     - analysis 用中文、面向中学生，公式一律用 LaTeX 标记（行内 $...$）。\
    不要输出 JSON 以外的任何内容。";

pub const PRACTICE_GENERATE_PROMPT: &'static str = "你是中学出题助手。根据给定的知识点与难度，出一道结构化练习题，严格只输出 JSON 对象：\
     {\"knowledge_point\":\"知识点\",\"question_text\":\"题目\",\"answer_spec\":\"参考答案/解析（供自动对拍）\",\"diagram_spec\":{\"points\":{...},\"objects\":[...],\"labels\":[...]}}。\
     规则：\
     - 难度定义：basic 基础（直接套用公式/定理）；variant 同类变式（条件隐藏或逆用）；advanced 综合拔高（多步组合、辅助线、跨知识点联动）；\
     - 题目、答案、图形三者同源自洽：几何题必须提供 diagram_spec 图纸规格，非几何题省略（输出 null）；\
     - diagram_spec 结构：points 为命名坐标 {\"A\":[x,y],...}；objects 为对象列表，支持类型 segment/polygon/circle/right_mark/equal_ticks/angle_arc/label，\
       可用 dashed/color 修饰（如 {\"type\":\"segment\",\"ends\":[\"A\",\"B\"],\"dashed\":true}），坐标取整数或一位小数；labels 为要标注的点名列表；\
     - 数学公式一律用 LaTeX 标记（行内 $...$）；\
     - answer_spec 必须给出确定答案或关键步骤，供判分对拍；\
     - 面向中学生，题目文字简洁清晰、数据自洽（三角形满足三角不等式、角度和为 180° 等）；\
     不要输出 JSON 以外的任何内容。";

pub const SESSION_TITLE_PROMPT: &'static str = "给下面这段对话起一个标题，用作聊天侧栏的会话名。\
     要求：一句话概括这次对话要解决的事，不超过 12 个字；保留学科/知识点等关键信息；\
     不要引号、不要句号、不要「会话」「标题」之类的前缀，直接输出标题本身。";

pub const SUMMARIZE_PROMPT: &'static str = "把以下对话压缩成任务摘要，保留关键事实：错题 id、知识点、未完成事项、结论。\
     摘要不超过 300 字，供新会话注入与上下文压缩使用。";

/// Header placed before the teaching rules of AGENTS.md.
pub const RULES_HEADER: &'static str = "\n\n【教学规则（AGENTS.md，家长/老师可编辑；与本提示冲突时以本文件为准）】\n";

/// Size limit of AGENTS.md in bytes; a larger file falls back to the static prompt.
pub const AGENTS_MD_MAX_BYTES: usize = 65536;

/// Why AGENTS.md could not be used.
#[derive(Debug, Clone, Copy, PartialEq, Eq, Structural)]
pub enum AgentsMdError {
    /// Missing or unreadable.
    Missing,
    /// Larger than `AGENTS_MD_MAX_BYTES` (the size is kept).
    TooLarge(usize),
    /// Not UTF-8.
    InvalidUtf8,
}

impl AgentsMdError {
    /// Machine-readable reason, for the GUI's rules status.
    pub fn reason(&self) -> (r: &'static str)
        ensures
            r@ == match *self {
                AgentsMdError::Missing => "missing"@,
                AgentsMdError::TooLarge(_) => "too_large"@,
                AgentsMdError::InvalidUtf8 => "invalid_utf8"@,
            },
    {
        match self {
            AgentsMdError::Missing => "missing",
            AgentsMdError::TooLarge(_) => "too_large",
            AgentsMdError::InvalidUtf8 => "invalid_utf8",
        }
    }
}

/// Checks the bytes read from AGENTS.md (`None` when the file could not be
/// read): missing, then too large, then not UTF-8; otherwise the text.
pub fn check_agents_md(read: Option<Vec<u8>>) -> (r: Result<String, AgentsMdError>)
    ensures
        match read {
            None => r == Err::<String, AgentsMdError>(AgentsMdError::Missing),
            Some(bytes) => if bytes@.len() > AGENTS_MD_MAX_BYTES {
                r == Err::<String, AgentsMdError>(AgentsMdError::TooLarge(bytes@.len() as usize))
            } else if !vstd::utf8::valid_utf8(bytes@) {
                r == Err::<String, AgentsMdError>(AgentsMdError::InvalidUtf8)
            } else {
                r matches Ok(s) && vstd::utf8::encode_utf8(s@) == bytes@
            },
        },
{
    let bytes = match read {
        None => return Err(AgentsMdError::Missing),
        Some(b) => b,
    };
    if bytes.len() > AGENTS_MD_MAX_BYTES {
        return Err(AgentsMdError::TooLarge(bytes.len()));
    }
    match crate::text::utf8_text(bytes) {
        Ok(s) => Ok(s),
        Err(_) => Err(AgentsMdError::InvalidUtf8),
    }
}

/// The agent's system prompt: static base, the teaching rules when given,
/// the grading guidance, then the English persona and grading rule in
/// English mode.
pub open spec fn agent_prompt_text(rules: Option<Seq<char>>, english_mode: bool) -> Seq<char> {
    BASE_AGENT_PROMPT@ + match rules {
        Some(r) => RULES_HEADER@ + trim(r),
        None => Seq::<char>::empty(),
    } + GRADING_GUIDANCE@ + if english_mode {
        ENGLISH_PERSONA_RULE@ + ENGLISH_GRADING_RULE@
    } else {
        Seq::<char>::empty()
    }
}

/// `text` followed by `rule` in English mode.
pub open spec fn with_english(text: Seq<char>, rule: Seq<char>, english_mode: bool) -> Seq<char> {
    if english_mode {
        text + rule
    } else {
        text
    }
}

/// Static base plus optional teaching rules plus optional English persona.
pub fn build_agent_system_prompt(rules: Option<&str>, english_mode: bool) -> (p: String)
    ensures
        p@ == agent_prompt_text(
            match rules {
                Some(r) => Some(r@),
                None => None,
            },
            english_mode,
        ),
{
    let mut prompt = BASE_AGENT_PROMPT.to_owned();
    let ghost mid = prompt@;
    if let Some(rules) = rules {
        prompt.append(RULES_HEADER);
        let t = trim_str(rules);
        prompt.append(t.as_str());
        proof {
            assert(prompt@ =~= mid + (RULES_HEADER@ + trim(rules@)));
        }
    } else {
        proof {
            assert(prompt@ =~= mid + Seq::<char>::empty());
        }
    }
    prompt.append(GRADING_GUIDANCE);
    let ghost after = prompt@;
    if english_mode {
        prompt.append(ENGLISH_PERSONA_RULE);
        prompt.append(ENGLISH_GRADING_RULE);
        proof {
            assert(prompt@ =~= after + (ENGLISH_PERSONA_RULE@ + ENGLISH_GRADING_RULE@));
        }
    } else {
        proof {
            assert(prompt@ =~= after + Seq::<char>::empty());
        }
    }
    prompt
}

/// The agent's system prompt from what was read of AGENTS.md: the rules are
/// used when the file passes `check_agents_md`, the static prompt otherwise.
pub fn agent_system_prompt(agents_md: Option<Vec<u8>>, english_mode: bool) -> (p: String)
    ensures
        match check_agents_md_spec(agents_md) {
            Some(rules) => exists|r: Seq<char>| vstd::utf8::encode_utf8(r) == rules && p@ == agent_prompt_text(Some(r), english_mode),
            None => p@ == agent_prompt_text(None, english_mode),
        },
{
    match check_agents_md(agents_md) {
        Ok(rules) => build_agent_system_prompt(Some(rules.as_str()), english_mode),
        Err(_) => build_agent_system_prompt(None, english_mode),
    }
}

/// The bytes of AGENTS.md when they are usable as teaching rules.
pub open spec fn check_agents_md_spec(read: Option<Vec<u8>>) -> Option<Seq<u8>> {
    match read {
        Some(bytes) => if bytes@.len() <= AGENTS_MD_MAX_BYTES && vstd::utf8::valid_utf8(bytes@) {
            Some(bytes@)
        } else {
            None
        },
        None => None,
    }
}

fn with_rule(base: &str, rule: &str, english_mode: bool) -> (p: String)
    ensures
        p@ == with_english(base@, rule@, english_mode),
{
    let mut prompt = base.to_owned();
    if english_mode {
        prompt.append(rule);
    }
    prompt
}

/// Prompt of the model path of `practice::check` (strict JSON verdict).
pub fn practice_check_system_prompt(english_mode: bool) -> (p: String)
    ensures
        p@ == with_english(PRACTICE_CHECK_PROMPT@, ENGLISH_CHECK_RULE@, english_mode),
{
    with_rule(PRACTICE_CHECK_PROMPT, ENGLISH_CHECK_RULE, english_mode)
}

/// Prompt of the free-form generation path of `practice::generate`.
pub fn practice_generate_system_prompt(english_mode: bool) -> (p: String)
    ensures
        p@ == with_english(PRACTICE_GENERATE_PROMPT@, ENGLISH_GENERATE_RULE@, english_mode),
{
    with_rule(PRACTICE_GENERATE_PROMPT, ENGLISH_GENERATE_RULE, english_mode)
}

/// Prompt of the session-title call.
pub fn session_title_prompt(english_mode: bool) -> (p: String)
    ensures
        p@ == with_english(SESSION_TITLE_PROMPT@, ENGLISH_TITLE_RULE@, english_mode),
{
    with_rule(SESSION_TITLE_PROMPT, ENGLISH_TITLE_RULE, english_mode)
}

/// Prompt of the hand-off / compaction summary call.
pub fn summarize_prompt(english_mode: bool) -> (p: String)
    ensures
        p@ == with_english(SUMMARIZE_PROMPT@, ENGLISH_SUMMARY_RULE@, english_mode),
{
    with_rule(SUMMARIZE_PROMPT, ENGLISH_SUMMARY_RULE, english_mode)
}

} // verus!
