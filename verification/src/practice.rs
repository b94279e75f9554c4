//! Practice plugin logic: difficulty tiers, answer normalisation and the
//! deterministic part of `practice::check` (parameter check, exact match
//! against the reference answer, the model prompt and the archived mistake).
use vstd::prelude::*;
use vstd::string::*;

use crate::contract::{ToolError, ToolErrorCode};
use crate::mistake::{Mistake, MistakeId, MistakeView};
use crate::storage::join_with;
use crate::text::{is_ws, owned, trim, trim_str, whitespace};

verus! {

/// Difficulty tier of a practice item.
#[derive(Debug, Clone, Copy, PartialEq, Eq, Structural)]
pub enum Difficulty {
    Basic,
    Variant,
    Advanced,
    Exam,
}

impl Difficulty {
    /// The tier used when none is given.
    pub fn default_tier() -> (d: Difficulty)
        ensures
            d == Difficulty::Basic,
    {
        Difficulty::Basic
    }
}

pub open spec fn difficulty_text(d: Difficulty) -> Seq<char> {
    match d {
        Difficulty::Basic => "basic（基础：直接套用公式/定理）"@,
        Difficulty::Variant => "variant（同类变式：条件隐藏或逆用）"@,
        Difficulty::Advanced => "advanced（综合拔高：多步组合、辅助线、跨知识点联动）"@,
        Difficulty::Exam => "exam（高考真题：池内抽取，非模型生成）"@,
    }
}

/// Tier → its meaning in the generation prompt.
pub fn difficulty_label(difficulty: Difficulty) -> (r: &'static str)
    ensures
        r@ == difficulty_text(difficulty),
{
    match difficulty {
        Difficulty::Basic => "basic（基础：直接套用公式/定理）",
        Difficulty::Variant => "variant（同类变式：条件隐藏或逆用）",
        Difficulty::Advanced => "advanced（综合拔高：多步组合、辅助线、跨知识点联动）",
        Difficulty::Exam => "exam（高考真题：池内抽取，非模型生成）",
    }
}

/// What `str::to_lowercase` makes of a string (full Unicode lower-casing).
pub uninterp spec fn unicode_lowercase(s: Seq<char>) -> Seq<char>;

/// `str::to_lowercase`; the result is named, it depends on the text alone.
/// Of a text that is all ASCII it is the ASCII lower-casing (Unicode maps
/// `A`-`Z` to `a`-`z` and no other ASCII character); the mapping of other
/// characters is left unsaid.
#[verifier::external_body]
fn to_lowercase(s: &str) -> (r: String)
    ensures
        r@ == unicode_lowercase(s@),
        (forall|i: int| 0 <= i < s@.len() ==> (#[trigger] s@[i] as u32) < 128) ==> r@ == crate::upload::ascii_lower(s@),
{
    s.to_lowercase()
}

/// Maximal runs of non-whitespace characters (`str::split_whitespace`).
pub open spec fn words(s: Seq<char>) -> Seq<Seq<char>>
    decreases s.len(),
{
    if s.len() == 0 {
        Seq::empty()
    } else {
        let w = words(s.drop_last());
        let c = s.last();
        if is_ws(c) {
            w
        } else if s.len() >= 2 && !is_ws(s[s.len() - 2]) {
            w.update(w.len() - 1, w.last().push(c))
        } else {
            w.push(seq![c])
        }
    }
}

/// Normal form of an answer: trimmed, lower-cased, inner whitespace runs
/// collapsed to one space.
pub open spec fn normalized(s: Seq<char>) -> Seq<char> {
    join_with(words(unicode_lowercase(trim(s))), ' ')
}

proof fn lemma_words_shape(s: Seq<char>)
    ensures
        words(s).len() > 0 <==> exists|i: int| 0 <= i < s.len() && !is_ws(s[i]),
        s.len() > 0 && !is_ws(s.last()) ==> words(s).len() > 0,
        forall|k: int| 0 <= k < words(s).len() ==> (#[trigger] words(s)[k]).len() > 0,
    decreases s.len(),
{
    if s.len() > 0 {
        let p = s.drop_last();
        lemma_words_shape(p);
        let w = words(p);
        assert forall|k: int| 0 <= k < words(s).len() implies (#[trigger] words(s)[k]).len() > 0 by {
            if k < w.len() {
                assert(w[k].len() > 0);
            }
        }
        if s.len() >= 2 && !is_ws(s[s.len() - 2]) {
            assert(p.last() == s[s.len() - 2]);
        }
        if words(s).len() > 0 {
            if is_ws(s.last()) {
                let i = choose|i: int| 0 <= i < p.len() && !is_ws(p[i]);
                assert(s[i] == p[i]);
            } else {
                assert(!is_ws(s[s.len() - 1]));
            }
        }
        if exists|i: int| 0 <= i < s.len() && !is_ws(s[i]) {
            let i = choose|i: int| 0 <= i < s.len() && !is_ws(s[i]);
            if i < s.len() - 1 {
                assert(p[i] == s[i]);
            }
        }
    }
}

proof fn lemma_join_extend_last(w: Seq<Seq<char>>, c: char)
    requires
        w.len() > 0,
    ensures
        join_with(w.update(w.len() - 1, w.last().push(c)), ' ') == join_with(w, ' ').push(c),
{
    let u = w.update(w.len() - 1, w.last().push(c));
    if w.len() > 1 {
        assert(u.drop_last() =~= w.drop_last());
        assert(join_with(u, ' ') =~= join_with(w, ' ').push(c));
    }
}

proof fn lemma_join_push(w: Seq<Seq<char>>, c: char)
    ensures
        join_with(w.push(seq![c]), ' ') == if w.len() > 0 {
            join_with(w, ' ').push(' ').push(c)
        } else {
            seq![c]
        },
{
    let u = w.push(seq![c]);
    if w.len() > 0 {
        assert(u.drop_last() =~= w);
        assert(join_with(w, ' ').push(' ') + seq![c] =~= join_with(w, ' ').push(' ').push(c));
    }
}

/// `split_whitespace` then `join(" ")`.
fn collapse_whitespace(s: &str) -> (r: String)
    ensures
        r@ == join_with(words(s@), ' '),
{
    let n = s.unicode_len();
    let mut out = String::new();
    let mut i: usize = 0;
    proof {
        assert(s@.subrange(0, 0) =~= Seq::<char>::empty());
    }
    while i < n
        invariant
            n == s@.len(),
            i <= n,
            out@ == join_with(words(s@.subrange(0, i as int)), ' '),
        decreases n - i,
    {
        let c = s.get_char(i);
        let ghost pre = s@.subrange(0, i as int);
        let ghost next = s@.subrange(0, i + 1);
        proof {
            assert(next.drop_last() =~= pre);
            assert(next.last() == c);
            lemma_words_shape(pre);
        }
        if !whitespace(c) {
            let continuing = i > 0 && !whitespace(s.get_char(i - 1));
            let piece = s.substring_char(i, i + 1);
            proof {
                assert(piece@ =~= seq![c]);
            }
            if continuing {
                proof {
                    assert(next[next.len() - 2] == s@[i - 1]);
                    assert(pre.last() == s@[i - 1]);
                    lemma_join_extend_last(words(pre), c);
                }
                out.append(piece);
                proof {
                    assert(out@ =~= join_with(words(pre), ' ').push(c));
                }
            } else {
                proof {
                    lemma_join_push(words(pre), c);
                    if i > 0 {
                        assert(next[next.len() - 2] == s@[i - 1]);
                    }
                }
                if out.unicode_len() > 0 {
                    out.append(" ");
                    proof {
                        reveal_strlit(" ");
                    }
                }
                let ghost before = out@;
                out.append(piece);
                proof {
                    reveal_strlit(" ");
                    if words(pre).len() > 0 {
                        assert(join_with(words(pre), ' ').len() > 0) by {
                            lemma_join_len(words(pre));
                        }
                        assert(out@ =~= join_with(words(pre), ' ').push(' ').push(c));
                    } else {
                        assert(out@ =~= seq![c]);
                    }
                }
            }
        }
        i = i + 1;
    }
    proof {
        assert(s@.subrange(0, n as int) =~= s@);
    }
    out
}

proof fn lemma_join_len(w: Seq<Seq<char>>)
    requires
        w.len() > 0,
        forall|k: int| 0 <= k < w.len() ==> (#[trigger] w[k]).len() > 0,
    ensures
        join_with(w, ' ').len() > 0,
    decreases w.len(),
{
    if w.len() > 1 {
        lemma_join_len(w.drop_last());
    }
}

/// Trims, lower-cases and collapses inner whitespace.
/// Every character is ASCII.
pub open spec fn all_ascii(s: Seq<char>) -> bool {
    forall|i: int| 0 <= i < s.len() ==> (#[trigger] s[i] as u32) < 128
}

/// The normal form of an all-ASCII answer: trimmed, ASCII lower-cased, runs
/// of whitespace made one space.
pub open spec fn normalized_ascii(s: Seq<char>) -> Seq<char> {
    join_with(words(crate::upload::ascii_lower(trim(s))), ' ')
}

proof fn lemma_trim_keeps_ascii(s: Seq<char>)
    requires
        all_ascii(s),
    ensures
        all_ascii(crate::text::trim_start(s)),
        all_ascii(trim(s)),
    decreases s.len(),
{
    if s.len() > 0 {
        assert(all_ascii(s.drop_first())) by {
            assert forall|i: int| 0 <= i < s.drop_first().len() implies (#[trigger] s.drop_first()[i] as u32) < 128 by {
                assert(s.drop_first()[i] == s[i + 1]);
            }
        }
        lemma_trim_keeps_ascii(s.drop_first());
    }
    lemma_trim_end_keeps_ascii(crate::text::trim_start(s));
}

proof fn lemma_trim_end_keeps_ascii(s: Seq<char>)
    requires
        all_ascii(s),
    ensures
        all_ascii(crate::text::trim_end(s)),
    decreases s.len(),
{
    if s.len() > 0 {
        assert(all_ascii(s.drop_last())) by {
            assert forall|i: int| 0 <= i < s.drop_last().len() implies (#[trigger] s.drop_last()[i] as u32) < 128 by {
                assert(s.drop_last()[i] == s[i]);
            }
        }
        lemma_trim_end_keeps_ascii(s.drop_last());
    }
}

pub fn normalize_answer(s: &str) -> (r: String)
    ensures
        r@ == normalized(s@),
        all_ascii(s@) ==> r@ == normalized_ascii(s@),
{
    let t = trim_str(s);
    proof {
        if all_ascii(s@) {
            lemma_trim_keeps_ascii(s@);
        }
    }
    let lower = to_lowercase(t.as_str());
    collapse_whitespace(lower.as_str())
}

/// Deterministic check against a reference answer: equal normal forms.
/// All-ASCII answers are compared by their ASCII normal forms.
pub fn exact_match(student: &str, reference: &str) -> (b: bool)
    ensures
        b == (normalized(student@) == normalized(reference@)),
        all_ascii(student@) && all_ascii(reference@) ==> b == (normalized_ascii(student@) == normalized_ascii(
            reference@,
        )),
{
    let a = normalize_answer(student);
    let b = normalize_answer(reference);
    a == b
}

// ---------- practice::check ----------

/// Parameters of `practice::check`.
#[derive(Debug)]
pub struct CheckParams {
    pub question: String,
    pub student_answer: String,
    pub reference_answer: Option<String>,
    pub subject: Option<String>,
    pub knowledge_point: Option<String>,
    /// Question type hint (fill-in, choice, ...), for the model.
    pub kind: Option<String>,
    pub item_id: Option<String>,
    pub difficulty: Option<Difficulty>,
}

/// An optional text trimmed, kept when not empty.
pub open spec fn trimmed_opt(o: Option<Seq<char>>) -> Option<Seq<char>> {
    match o {
        Some(t) => if trim(t).len() > 0 {
            Some(trim(t))
        } else {
            None
        },
        None => None,
    }
}

/// An optional text kept as it is when it is not blank, else a default.
pub open spec fn or_default(o: Option<Seq<char>>, d: Seq<char>) -> Seq<char> {
    match o {
        Some(t) => if trim(t).len() > 0 {
            t
        } else {
            d
        },
        None => d,
    }
}

fn trimmed_option(o: &Option<String>) -> (r: Option<String>)
    ensures
        crate::message::opt_str(r) == trimmed_opt(crate::message::opt_str(*o)),
{
    match o {
        Some(t) => {
            let t = trim_str(t.as_str());
            if t.unicode_len() > 0 {
                Some(t)
            } else {
                None
            }
        },
        None => None,
    }
}

fn or_default_text(o: &Option<String>, d: &str) -> (r: String)
    ensures
        r@ == or_default(crate::message::opt_str(*o), d@),
{
    match o {
        Some(t) => if trim_str(t.as_str()).unicode_len() > 0 {
            owned(t.as_str())
        } else {
            owned(d)
        },
        None => owned(d),
    }
}

/// The first step of a check: answered without the model, or the prompt
/// the model must judge.
#[derive(Debug)]
pub enum CheckStep {
    /// The answer equals the reference answer after normalisation.
    Exact { analysis: String },
    /// The model judges; this is the user prompt it gets.
    Model { prompt: String },
}

pub open spec fn blank_params_message() -> Seq<char> {
    "question 与 student_answer 不能为空"@
}

pub open spec fn exact_analysis(english_mode: bool) -> Seq<char> {
    if english_mode {
        "The answer matches the reference answer and is correct."@
    } else {
        "参考答案对拍一致，作答正确。"@
    }
}

/// The user prompt of the model check: question, answer, reference and type
/// lines, each present one trimmed.
pub open spec fn check_prompt(
    question: Seq<char>,
    answer: Seq<char>,
    reference: Option<Seq<char>>,
    kind: Option<Seq<char>>,
) -> Seq<char> {
    let base = "题目："@ + trim(question) + "\n学生作答："@ + trim(answer);
    let with_ref = match trimmed_opt(reference) {
        Some(r) => base + "\n参考答案："@ + r,
        None => base,
    };
    match trimmed_opt(kind) {
        Some(k) => with_ref + "\n题型："@ + k,
        None => with_ref,
    }
}

/// The deterministic part of `practice::check`: blank question or answer is
/// refused; an answer equal to the (trimmed, non-empty) reference after
/// normalisation is correct without the model; otherwise the model judges.
/// All-ASCII answers are compared by their ASCII normal forms.
pub fn check_first_step(p: &CheckParams, english_mode: bool) -> (r: Result<CheckStep, ToolError>)
    ensures
        (trim(p.question@).len() == 0 || trim(p.student_answer@).len() == 0) ==> (r matches Err(e) && e.code
            == ToolErrorCode::InvalidParams && e.message@ == blank_params_message()),
        !(trim(p.question@).len() == 0 || trim(p.student_answer@).len() == 0) ==> {
            let reference = trimmed_opt(crate::message::opt_str(p.reference_answer));
            if reference matches Some(rt) && normalized(p.student_answer@) == normalized(rt) {
                r matches Ok(CheckStep::Exact { analysis }) && analysis@ == exact_analysis(english_mode)
            } else {
                r matches Ok(CheckStep::Model { prompt }) && prompt@ == check_prompt(
                    p.question@,
                    p.student_answer@,
                    crate::message::opt_str(p.reference_answer),
                    crate::message::opt_str(p.kind),
                )
            }
        },
        !(trim(p.question@).len() == 0 || trim(p.student_answer@).len() == 0) ==> {
            let reference = trimmed_opt(crate::message::opt_str(p.reference_answer));
            (all_ascii(p.student_answer@) && reference is Some && all_ascii(reference->0)) ==> ((r matches Ok(
                CheckStep::Exact { .. },
            )) == (normalized_ascii(p.student_answer@) == normalized_ascii(reference->0)))
        },
{
    if trim_str(p.question.as_str()).unicode_len() == 0 || trim_str(p.student_answer.as_str()).unicode_len() == 0 {
        return Err(ToolError::invalid_params("question 与 student_answer 不能为空"));
    }
    let reference = trimmed_option(&p.reference_answer);
    match &reference {
        Some(rt) => {
            if exact_match(p.student_answer.as_str(), rt.as_str()) {
                let analysis = if english_mode {
                    owned("The answer matches the reference answer and is correct.")
                } else {
                    owned("参考答案对拍一致，作答正确。")
                };
                return Ok(CheckStep::Exact { analysis });
            }
        },
        None => {},
    }
    let mut prompt = crate::text::concat2("题目：", trim_str(p.question.as_str()).as_str());
    prompt.append("\n学生作答：");
    prompt.append(trim_str(p.student_answer.as_str()).as_str());
    match &reference {
        Some(rt) => {
            prompt.append("\n参考答案：");
            prompt.append(rt.as_str());
        },
        None => {},
    }
    match trimmed_option(&p.kind) {
        Some(k) => {
            prompt.append("\n题型：");
            prompt.append(k.as_str());
        },
        None => {},
    }
    Ok(CheckStep::Model { prompt })
}

/// The mistake archived for a wrong answer the model judged.
pub open spec fn wrong_answer_view(p_question: Seq<char>, p_answer: Seq<char>, p_reference: Option<Seq<char>>,
    p_subject: Option<Seq<char>>, p_point: Option<Seq<char>>, analysis: Seq<char>, id: MistakeId, now: i64) -> MistakeView {
    MistakeView {
        id,
        subject: or_default(p_subject, "未分类"@),
        knowledge_point: or_default(p_point, "未标注"@),
        question: p_question,
        student_answer: p_answer,
        reference_answer: trimmed_opt(p_reference),
        is_correct: false,
        analysis,
        created_at: now,
        pinned: false,
        deleted_at: None,
    }
}

/// A wrong practice answer is archived as the student gave it: the
/// mistake keeps the question, the student's own answer and the model's
/// analysis, under the given id and time, marked wrong and live.
pub proof fn lemma_wrong_answer_kept(
    p_question: Seq<char>,
    p_answer: Seq<char>,
    p_reference: Option<Seq<char>>,
    p_subject: Option<Seq<char>>,
    p_point: Option<Seq<char>>,
    analysis: Seq<char>,
    id: MistakeId,
    now: i64,
)
    ensures
        ({
            let m = wrong_answer_view(p_question, p_answer, p_reference, p_subject, p_point, analysis, id, now);
            &&& m.id == id
            &&& m.question == p_question
            &&& m.student_answer == p_answer
            &&& m.analysis == analysis
            &&& !m.is_correct
            &&& m.created_at == now
            &&& m.deleted_at is None
            &&& (p_point is Some && trim(p_point->0).len() > 0 ==> m.knowledge_point == p_point->0)
        }),
{
}

/// The mistake archived for a wrong answer: subject "未分类" and knowledge
/// point "未标注" when blank, the trimmed reference answer.
pub fn wrong_answer_mistake(p: &CheckParams, analysis: &str, id: MistakeId, now: i64) -> (m: Mistake)
    ensures
        m@ == wrong_answer_view(
            p.question@,
            p.student_answer@,
            crate::message::opt_str(p.reference_answer),
            crate::message::opt_str(p.subject),
            crate::message::opt_str(p.knowledge_point),
            analysis@,
            id,
            now,
        ),
        m.id == id,
        m.question@ == p.question@,
        m.student_answer@ == p.student_answer@,
        m.analysis@ == analysis@,
        !m.is_correct,
        m.created_at == now,
        m.deleted_at is None,
{
    Mistake {
        id,
        subject: or_default_text(&p.subject, "未分类"),
        knowledge_point: or_default_text(&p.knowledge_point, "未标注"),
        question: owned(p.question.as_str()),
        student_answer: owned(p.student_answer.as_str()),
        reference_answer: trimmed_option(&p.reference_answer),
        is_correct: false,
        analysis: owned(analysis),
        created_at: now,
        pinned: false,
        deleted_at: None,
    }
}

/// Knowledge point of the practice history ("未标注" when blank).
pub fn history_point(p: &CheckParams) -> (r: String)
    ensures
        r@ == or_default(crate::message::opt_str(p.knowledge_point), "未标注"@),
{
    or_default_text(&p.knowledge_point, "未标注")
}

/// Position of the first `c` in `t` (its length when there is none).
pub open spec fn first_index_of(t: Seq<char>, c: char) -> int
    decreases t.len(),
{
    if t.len() == 0 {
        0
    } else if t[0] == c {
        0
    } else {
        1 + first_index_of(t.drop_first(), c)
    }
}

/// Position just after the last `c` in `t` (0 when there is none).
pub open spec fn last_end_of(t: Seq<char>, c: char) -> int
    decreases t.len(),
{
    if t.len() == 0 {
        0
    } else if t.last() == c {
        t.len() as int
    } else {
        last_end_of(t.drop_last(), c)
    }
}

/// `first_index_of` is the position of the first occurrence of `c`, or the
/// length when there is none.
pub proof fn lemma_first_index_of(t: Seq<char>, c: char)
    ensures
        0 <= first_index_of(t, c) <= t.len(),
        forall|j: int| 0 <= j < first_index_of(t, c) ==> t[j] != c,
        first_index_of(t, c) < t.len() ==> t[first_index_of(t, c)] == c,
    decreases t.len(),
{
    if t.len() > 0 && t[0] != c {
        lemma_first_index_of(t.drop_first(), c);
        assert forall|j: int| 0 <= j < first_index_of(t, c) implies t[j] != c by {
            if j > 0 {
                assert(t[j] == t.drop_first()[j - 1]);
            }
        }
    }
}

/// `last_end_of` is the position just after the last occurrence of `c`, or
/// 0 when there is none.
pub proof fn lemma_last_end_of(t: Seq<char>, c: char)
    ensures
        0 <= last_end_of(t, c) <= t.len(),
        forall|j: int| last_end_of(t, c) <= j < t.len() ==> t[j] != c,
        last_end_of(t, c) > 0 ==> t[last_end_of(t, c) - 1] == c,
    decreases t.len(),
{
    if t.len() > 0 && t.last() != c {
        lemma_last_end_of(t.drop_last(), c);
        assert forall|j: int| last_end_of(t, c) <= j < t.len() implies t[j] != c by {
            if j < t.len() - 1 {
                assert(t[j] == t.drop_last()[j]);
            }
        }
    }
}

/// The part of a reply from its first '{' to its last '}', when there is
/// one in that order.
pub open spec fn brace_span(t: Seq<char>) -> Option<Seq<char>> {
    let s = first_index_of(t, '{');
    let e = last_end_of(t, '}');
    if s < t.len() && e > 0 && s < e {
        Some(t.subrange(s, e))
    } else {
        None
    }
}

/// The texts a model reply is parsed from, in order: the trimmed reply, then
/// the part from its first '{' to its last '}'.
pub fn reply_candidates(text: &str) -> (r: (String, Option<String>))
    ensures
        r.0@ == trim(text@),
        crate::message::opt_str(r.1) == brace_span(trim(text@)),
{
    let t = trim_str(text);
    let n = t.unicode_len();
    proof {
        lemma_first_index_of(t@, '{');
        lemma_last_end_of(t@, '}');
    }
    let mut s: usize = 0;
    while s < n && t.get_char(s) != '{'
        invariant
            n == t@.len(),
            s <= n,
            s <= first_index_of(t@, '{'),
            0 <= first_index_of(t@, '{') <= t@.len(),
            forall|j: int| 0 <= j < first_index_of(t@, '{') ==> t@[j] != '{',
            first_index_of(t@, '{') < t@.len() ==> t@[first_index_of(t@, '{')] == '{',
        decreases n - s,
    {
        s = s + 1;
    }
    let mut e: usize = n;
    while e > 0 && t.get_char(e - 1) != '}'
        invariant
            n == t@.len(),
            e <= n,
            e >= last_end_of(t@, '}'),
            0 <= last_end_of(t@, '}') <= t@.len(),
            forall|j: int| last_end_of(t@, '}') <= j < t@.len() ==> t@[j] != '}',
            last_end_of(t@, '}') > 0 ==> t@[last_end_of(t@, '}') - 1] == '}',
        decreases e,
    {
        e = e - 1;
    }
    if s < n && e > 0 && s < e {
        let slice = owned(t.substring_char(s, e));
        (t, Some(slice))
    } else {
        (t, None)
    }
}

pub open spec fn unparsable_message(text: Seq<char>) -> Seq<char> {
    "判分结果无法解析："@ + crate::text::head(text, 200)
}

/// The error of a model reply that is no judgement.
pub fn unparsable_reply(text: &str) -> (e: ToolError)
    ensures
        e.code == ToolErrorCode::HandlerError,
        e.message@ == unparsable_message(text@),
        !e.retryable,
{
    let head = crate::text::head_chars(text, 200);
    let m = crate::text::concat2("判分结果无法解析：", head.as_str());
    ToolError::handler(m.as_str())
}

pub open spec fn unparsable_generated_message(text: Seq<char>) -> Seq<char> {
    "模型出题结果无法解析："@ + crate::text::head(text, 200)
}

/// The error of a generation reply that is no exercise.
pub fn unparsable_generated(text: &str) -> (e: ToolError)
    ensures
        e.code == ToolErrorCode::HandlerError,
        e.message@ == unparsable_generated_message(text@),
        !e.retryable,
{
    let head = crate::text::head_chars(text, 200);
    let m = crate::text::concat2("模型出题结果无法解析：", head.as_str());
    ToolError::handler(m.as_str())
}

/// The end of a model-judged check: a wrong answer is archived in the
/// notebook (as mistake `id`, at `now`); returns whether it was.  A failed
/// save is a handler error.
pub fn archive_if_wrong(
    store: &mut crate::store::MemoryStorage,
    p: &CheckParams,
    correct: bool,
    analysis: &str,
    id: MistakeId,
    now: i64,
) -> (r: Result<bool, ToolError>)
    requires
        old(store).wf(),
    ensures
        final(store).wf(),
        final(store).sessions() == old(store).sessions(),
        correct ==> r == Ok::<bool, ToolError>(false) && final(store).mistakes() == old(store).mistakes(),
        !correct && crate::store::has_mistake(old(store).mistakes(), id) ==> {
            &&& r matches Err(e)
            &&& e.code == ToolErrorCode::HandlerError
            &&& e.message@ == "错题归档失败："@ + "已存在："@ + crate::store::uuid_text(id.0)
            &&& final(store).mistakes() == old(store).mistakes()
        },
        !correct && !crate::store::has_mistake(old(store).mistakes(), id) ==> r == Ok::<bool, ToolError>(true)
            && final(store).mistakes() == old(store).mistakes().push(
            wrong_answer_view(
                p.question@,
                p.student_answer@,
                crate::message::opt_str(p.reference_answer),
                crate::message::opt_str(p.subject),
                crate::message::opt_str(p.knowledge_point),
                analysis@,
                id,
                now,
            ),
        ),
        !correct && r == Ok::<bool, ToolError>(true) ==> {
            &&& final(store).mistakes().len() == old(store).mistakes().len() + 1
            &&& final(store).mistakes().last().id == id
            &&& final(store).mistakes().last().question == p.question@
            &&& final(store).mistakes().last().student_answer == p.student_answer@
            &&& final(store).mistakes().last().analysis == analysis@
            &&& !final(store).mistakes().last().is_correct
        },
{
    if correct {
        return Ok(false);
    }
    let m = wrong_answer_mistake(p, analysis, id, now);
    match store.save(&m) {
        Ok(_) => Ok(true),
        Err(e) => {
            let text = crate::text::concat2("错题归档失败：", e.describe().as_str());
            Err(ToolError::handler(text.as_str()))
        },
    }
}

} // verus!
