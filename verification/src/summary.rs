//! What the hand-off summariser and the titler send a model, and what they
//! make of its reply: the transcript lines, the byte budget of a transcript,
//! the summary kept from a reply, and the title cleaned from a reply.
use vstd::prelude::*;

use crate::message::{visible_text, visible_text_of, KindView, Message, MessageKind, MessageView, ToolErrorView};
use crate::session::Goal;
use crate::storage::{split_on, split_str};
use crate::store::views;
use crate::scheduler::{fallback_title, fallback_title_of, stub_summary, stub_summary_of};
use crate::text::{concat2, head, head_chars, owned, trim, trim_str};

verus! {

/// `str::len`: the length of the UTF-8 encoding.  vstd states it cast to
/// `usize`; the bytes of a string lie in memory, so the length is that
/// number itself.
#[verifier::external_body]
fn byte_len(s: &str) -> (n: usize)
    ensures
        n == vstd::utf8::encode_utf8(s@).len(),
{
    s.len()
}

/// What `{:?}` prints for a tool result (`Ok("…")` with the text quoted and
/// escaped, or the error's fields).
pub uninterp spec fn debug_result(r: Result<Seq<char>, ToolErrorView>) -> Seq<char>;

/// `format!("{:?}", result)` of a tool result; named, it depends on the
/// value alone.
#[verifier::external_body]
fn debug_of_result(r: &Result<String, crate::contract::ToolError>) -> (s: String)
    ensures
        s@ == debug_result(match r {
            Ok(v) => Ok(v@),
            Err(e) => Err(ToolErrorView { code: e.code, message: e.message@, retryable: e.retryable }),
        }),
{
    format!("{:?}", r.as_ref().map(|v| v.to_string()))
}

/// One transcript line of a message.
pub open spec fn message_line(m: MessageView) -> Seq<char> {
    match m.kind {
        KindView::User { text, .. } => "用户："@ + text,
        KindView::Assistant { text } => "助手："@ + text,
        KindView::System { text, .. } => "系统："@ + text,
        KindView::Reasoning { text, .. } => "推理："@ + text,
        KindView::ToolCall { entry, params, result, .. } => "工具："@ + entry + " 参数 "@ + params + " 结果 "@
            + debug_result(result),
    }
}

pub fn message_text(m: &Message) -> (r: String)
    ensures
        r@ == message_line(m@),
{
    match &m.kind {
        MessageKind::User { text, .. } => concat2("用户：", text.as_str()),
        MessageKind::Assistant { text } => concat2("助手：", text.as_str()),
        MessageKind::System { text, .. } => concat2("系统：", text.as_str()),
        MessageKind::Reasoning { text, .. } => concat2("推理：", text.as_str()),
        MessageKind::ToolCall { entry, params, result, .. } => {
            let mut out = concat2("工具：", entry.as_str());
            out.append(" 参数 ");
            out.append(params.as_str());
            out.append(" 结果 ");
            out.append(debug_of_result(result).as_str());
            out
        },
    }
}

pub open spec fn bytes_of(s: Seq<char>) -> nat {
    vstd::utf8::encode_utf8(s).len()
}

/// The summariser's transcript: one line per message while the text stays
/// within `max` bytes; the first line that would pass it is replaced by a
/// truncation mark and ends the transcript.
pub open spec fn summary_transcript(lines: Seq<Seq<char>>, max: nat) -> Seq<char>
    decreases lines.len(),
{
    summary_transcript_from(Seq::empty(), lines, max)
}

pub open spec fn summary_transcript_from(acc: Seq<char>, lines: Seq<Seq<char>>, max: nat) -> Seq<char>
    decreases lines.len(),
{
    if lines.len() == 0 {
        acc
    } else if bytes_of(acc) + bytes_of(lines[0]) > max {
        acc + "…（已截断）"@
    } else {
        summary_transcript_from(acc + lines[0] + "\n"@, lines.drop_first(), max)
    }
}

pub open spec fn all_lines(ms: Seq<MessageView>) -> Seq<Seq<char>> {
    ms.map_values(|m: MessageView| message_line(m))
}

/// Messages below this many are summarised without the model.
pub const MIN_MESSAGES_FOR_MODEL: usize = 8;

/// Byte budget of a summariser transcript.
pub const SUMMARY_INPUT_BYTES: usize = 12000;

pub open spec fn goal_text_of(goal: Option<Seq<char>>) -> Seq<char> {
    match goal {
        Some(g) => g,
        None => "（未记录目标）"@,
    }
}

/// The summariser's user prompt: the goal, then the transcript.
pub open spec fn summary_prompt(ms: Seq<MessageView>, goal: Option<Seq<char>>) -> Seq<char> {
    "目标："@ + goal_text_of(goal) + "\n\n对话：\n"@ + summary_transcript(all_lines(ms), SUMMARY_INPUT_BYTES as nat)
}

/// The user prompt of a model summary, or none when the session is short
/// (the stub summary is used then).
pub fn summary_request(messages: &Vec<Message>, goal: Option<&Goal>) -> (r: Option<String>)
    ensures
        match r {
            None => messages@.len() < MIN_MESSAGES_FOR_MODEL,
            Some(p) => messages@.len() >= MIN_MESSAGES_FOR_MODEL && p@ == summary_prompt(
                views(messages@),
                match goal {
                    Some(g) => Some(g.text@),
                    None => None,
                },
            ),
        },
{
    if messages.len() < MIN_MESSAGES_FOR_MODEL {
        return None;
    }
    let ghost ls = all_lines(views(messages@));
    let mut transcript = String::new();
    let mut used: usize = 0;
    let mut i: usize = 0;
    proof {
        assert(ls.skip(0) =~= ls);
        assert(transcript@ =~= Seq::<char>::empty());
    }
    while i < messages.len()
        invariant
            ls == all_lines(views(messages@)),
            messages@.len() >= MIN_MESSAGES_FOR_MODEL,
            i <= messages@.len(),
            used == bytes_of(transcript@),
            summary_transcript(ls, SUMMARY_INPUT_BYTES as nat) == summary_transcript_from(
                transcript@,
                ls.skip(i as int),
                SUMMARY_INPUT_BYTES as nat,
            ),
        decreases messages.len() - i,
    {
        let line = message_text(&messages[i]);
        let n = byte_len(line.as_str());
        proof {
            assert(ls.skip(i as int)[0] == line@);
            assert(ls.skip(i as int).drop_first() =~= ls.skip(i + 1));
        }
        if used > SUMMARY_INPUT_BYTES || n > SUMMARY_INPUT_BYTES - used {
            let ghost before = transcript@;
            transcript.append("…（已截断）");
            proof {
                assert(bytes_of(before) + bytes_of(line@) > SUMMARY_INPUT_BYTES);
                assert(transcript@ == summary_transcript_from(before, ls.skip(i as int), SUMMARY_INPUT_BYTES as nat));
            }
            let mut p = concat2("目标：", match goal {
                Some(g) => g.text.as_str(),
                None => "（未记录目标）",
            });
            p.append("\n\n对话：\n");
            p.append(transcript.as_str());
            return Some(p);
        }
        let ghost before = transcript@;
        transcript.append(line.as_str());
        transcript.append("\n");
        proof {
            assert(transcript@ =~= before + line@ + "\n"@);
        }
        used = byte_len(transcript.as_str());
        i = i + 1;
    }
    proof {
        assert(ls.skip(i as int) =~= Seq::<Seq<char>>::empty());
    }
    let mut p = concat2("目标：", match goal {
        Some(g) => g.text.as_str(),
        None => "（未记录目标）",
    });
    p.append("\n\n对话：\n");
    p.append(transcript.as_str());
    Some(p)
}

/// The summary kept from the summariser's reply: the reply trimmed and cut
/// to 300 characters; the stub summary when the model failed (`None`) or
/// answered with blanks only.
pub open spec fn summary_from_reply_of(reply: Option<Seq<char>>, count: nat, goal: Option<Seq<char>>) -> Seq<char> {
    match reply {
        Some(t) => if trim(t).len() > 0 {
            head(trim(t), SUMMARY_MAX_CHARS as nat)
        } else {
            stub_summary_of(count, goal)
        },
        None => stub_summary_of(count, goal),
    }
}

/// Longest summary kept, in characters.
pub const SUMMARY_MAX_CHARS: usize = 300;

pub fn summary_from_reply(reply: Option<&str>, messages: &Vec<Message>, goal: Option<&Goal>) -> (r: String)
    ensures
        r@ == summary_from_reply_of(
            match reply {
                Some(t) => Some(t@),
                None => None,
            },
            messages@.len(),
            match goal {
                Some(g) => Some(g.text@),
                None => None,
            },
        ),
{
    match reply {
        Some(t) => {
            let trimmed = trim_str(t);
            if trimmed.unicode_len() > 0 {
                head_chars(trimmed.as_str(), SUMMARY_MAX_CHARS)
            } else {
                stub_summary(messages, goal)
            }
        },
        None => stub_summary(messages, goal),
    }
}

/// Messages the titler looks at, from the start of the session.
pub const TITLE_MESSAGES: usize = 6;

/// Byte budget of a titler transcript.
pub const TITLE_INPUT_BYTES: usize = 4000;

/// A titler line: user messages by what the person sees, others as in the
/// summariser's transcript.
pub open spec fn title_line(m: MessageView) -> Seq<char> {
    match m.kind {
        KindView::User { .. } => "用户："@ + match visible_text_of(m) {
            Some(t) => t,
            None => Seq::empty(),
        },
        _ => message_line(m),
    }
}

/// The titler's transcript: lines of the first messages while the text stays
/// within `max` bytes; the first line that would pass it ends the transcript.
pub open spec fn title_transcript_from(acc: Seq<char>, lines: Seq<Seq<char>>, max: nat) -> Seq<char>
    decreases lines.len(),
{
    if lines.len() == 0 {
        acc
    } else if bytes_of(acc) + bytes_of(lines[0]) > max {
        acc
    } else {
        title_transcript_from(acc + lines[0] + "\n"@, lines.drop_first(), max)
    }
}

pub open spec fn title_transcript_of(ms: Seq<MessageView>) -> Seq<char> {
    title_transcript_from(
        Seq::empty(),
        head_seq(ms, TITLE_MESSAGES as nat).map_values(|m: MessageView| title_line(m)),
        TITLE_INPUT_BYTES as nat,
    )
}

pub open spec fn head_seq<A>(s: Seq<A>, n: nat) -> Seq<A> {
    if s.len() <= n {
        s
    } else {
        s.take(n as int)
    }
}

fn title_text(m: &Message) -> (r: String)
    ensures
        r@ == title_line(m@),
{
    match &m.kind {
        MessageKind::User { .. } => {
            let shown = match visible_text(m) {
                Some(t) => t,
                None => "",
            };
            proof {
                reveal_strlit("");
            }
            concat2("用户：", shown)
        },
        _ => message_text(m),
    }
}

/// The titler's user prompt.
pub fn title_transcript(messages: &Vec<Message>) -> (r: String)
    ensures
        r@ == title_transcript_of(views(messages@)),
{
    let ghost ms = views(messages@);
    let ghost ls = head_seq(ms, TITLE_MESSAGES as nat).map_values(|m: MessageView| title_line(m));
    let limit: usize = if messages.len() < TITLE_MESSAGES {
        messages.len()
    } else {
        TITLE_MESSAGES
    };
    let mut transcript = String::new();
    let mut used: usize = 0;
    let mut i: usize = 0;
    proof {
        assert(ls.skip(0) =~= ls);
        assert(transcript@ =~= Seq::<char>::empty());
        assert(ls.len() == limit);
    }
    while i < limit
        invariant
            ms == views(messages@),
            ls == head_seq(ms, TITLE_MESSAGES as nat).map_values(|m: MessageView| title_line(m)),
            limit <= messages@.len(),
            ls.len() == limit,
            i <= limit,
            used == bytes_of(transcript@),
            title_transcript_of(ms) == title_transcript_from(transcript@, ls.skip(i as int), TITLE_INPUT_BYTES as nat),
        decreases limit - i,
    {
        let line = title_text(&messages[i]);
        let n = byte_len(line.as_str());
        proof {
            assert(ls.skip(i as int)[0] == ls[i as int]);
            assert(ls[i as int] == line@);
            assert(ls.skip(i as int).drop_first() =~= ls.skip(i + 1));
        }
        if used > TITLE_INPUT_BYTES || n > TITLE_INPUT_BYTES - used {
            return transcript;
        }
        let ghost before = transcript@;
        transcript.append(line.as_str());
        transcript.append("\n");
        proof {
            assert(transcript@ =~= before + line@ + "\n"@);
        }
        used = byte_len(transcript.as_str());
        i = i + 1;
    }
    proof {
        assert(ls.skip(i as int) =~= Seq::<Seq<char>>::empty());
    }
    transcript
}

/// Longest title kept, in characters.
pub const TITLE_MAX_CHARS: usize = 40;

/// Quote and stop marks cleaned off both ends of a generated title.
pub open spec fn is_title_mark(c: char) -> bool {
    c == '"' || c == '\'' || c == '“' || c == '”' || c == '‘' || c == '’' || c == '「' || c == '」' || c == '《'
        || c == '》' || c == '。' || c == '.'
}

fn title_mark(c: char) -> (b: bool)
    ensures
        b == is_title_mark(c),
{
    c == '"' || c == '\'' || c == '“' || c == '”' || c == '‘' || c == '’' || c == '「' || c == '」' || c == '《'
        || c == '》' || c == '。' || c == '.'
}

pub open spec fn strip_marks_start(s: Seq<char>) -> Seq<char>
    decreases s.len(),
{
    if s.len() > 0 && is_title_mark(s[0]) {
        strip_marks_start(s.drop_first())
    } else {
        s
    }
}

pub open spec fn strip_marks_end(s: Seq<char>) -> Seq<char>
    decreases s.len(),
{
    if s.len() > 0 && is_title_mark(s.last()) {
        strip_marks_end(s.drop_last())
    } else {
        s
    }
}

/// The first line that is not blank, trimmed; empty when there is none.
pub open spec fn first_nonblank(lines: Seq<Seq<char>>) -> Seq<char>
    decreases lines.len(),
{
    if lines.len() == 0 {
        Seq::empty()
    } else if trim(lines[0]).len() > 0 {
        trim(lines[0])
    } else {
        first_nonblank(lines.drop_first())
    }
}

/// A generated title cleaned: its first non-blank line, without quote and
/// stop marks at either end, trimmed and cut to 40 characters.
pub open spec fn sanitized_title(raw: Seq<char>) -> Seq<char> {
    head(trim(strip_marks_end(strip_marks_start(first_nonblank(split_on(raw, '\n'))))), TITLE_MAX_CHARS as nat)
}

fn strip_marks(s: &str) -> (r: String)
    ensures
        r@ == strip_marks_end(strip_marks_start(s@)),
{
    let n = s.unicode_len();
    let mut a: usize = 0;
    proof {
        assert(s@.subrange(0, n as int) =~= s@);
    }
    while a < n
        invariant
            n == s@.len(),
            a <= n,
            strip_marks_start(s@) == strip_marks_start(s@.subrange(a as int, n as int)),
        ensures
            a <= n,
            strip_marks_start(s@) == strip_marks_start(s@.subrange(a as int, n as int)),
            a == n || !is_title_mark(s@[a as int]),
        decreases n - a,
    {
        let c = s.get_char(a);
        if !title_mark(c) {
            break;
        }
        proof {
            let t = s@.subrange(a as int, n as int);
            assert(t.drop_first() =~= s@.subrange(a + 1, n as int));
        }
        a = a + 1;
    }
    let rest = s.substring_char(a, n);
    proof {
        let t = rest@;
        if a < n {
            assert(t[0] == s@[a as int]);
        }
        assert(strip_marks_start(t) == t);
        assert(rest@.subrange(0, rest@.len() as int) =~= rest@);
    }
    let mut j: usize = n - a;
    while j > 0
        invariant
            rest@ == s@.subrange(a as int, n as int),
            n == s@.len(),
            a <= n,
            j <= rest@.len(),
            strip_marks_end(rest@) == strip_marks_end(rest@.subrange(0, j as int)),
        ensures
            j <= rest@.len(),
            strip_marks_end(rest@) == strip_marks_end(rest@.subrange(0, j as int)),
            j == 0 || !is_title_mark(rest@[j - 1]),
        decreases j,
    {
        let c = rest.get_char(j - 1);
        if !title_mark(c) {
            break;
        }
        proof {
            let t = rest@.subrange(0, j as int);
            assert(t.drop_last() =~= rest@.subrange(0, j - 1));
        }
        j = j - 1;
    }
    let out = rest.substring_char(0, j);
    proof {
        let t = rest@.subrange(0, j as int);
        if j > 0 {
            assert(t.last() == rest@[j - 1]);
        }
        assert(strip_marks_end(t) == t);
    }
    out.to_owned()
}

/// A model's title reply cleaned for the session list.
pub fn sanitize_title(raw: &str) -> (r: String)
    ensures
        r@ == sanitized_title(raw@),
{
    let lines = split_str(raw, '\n');
    let ghost ls = lines@.map_values(|p: String| p@);
    let mut line = String::new();
    let mut i: usize = 0;
    proof {
        assert(ls.skip(0) =~= ls);
    }
    while i < lines.len()
        invariant_except_break
            line@ == Seq::<char>::empty(),
        invariant
            ls == lines@.map_values(|p: String| p@),
            ls == split_on(raw@, '\n'),
            i <= lines@.len(),
            first_nonblank(ls) == first_nonblank(ls.skip(i as int)),
        ensures
            first_nonblank(ls) == line@,
        decreases lines.len() - i,
    {
        let t = trim_str(lines[i].as_str());
        proof {
            assert(ls.skip(i as int)[0] == lines@[i as int]@);
            assert(ls.skip(i as int).drop_first() =~= ls.skip(i + 1));
        }
        if t.unicode_len() > 0 {
            line = t;
            break;
        }
        i = i + 1;
        proof {
            if i == lines.len() {
                assert(ls.skip(i as int) =~= Seq::<Seq<char>>::empty());
            }
        }
    }
    let stripped = strip_marks(line.as_str());
    let cleaned = trim_str(stripped.as_str());
    head_chars(cleaned.as_str(), TITLE_MAX_CHARS)
}

/// What the titler gives back: the cleaned reply, or nothing when the model
/// failed (the caller then falls back to the first user message).
pub fn title_from_reply(reply: Option<&str>) -> (r: String)
    ensures
        r@ == match reply {
            Some(t) => sanitized_title(t@),
            None => Seq::empty(),
        },
{
    match reply {
        Some(t) => sanitize_title(t),
        None => String::new(),
    }
}

/// A hand-off summary carried into a new session.
#[derive(Debug, Clone)]
pub struct HandoffSummary {
    pub text: String,
}

/// The summariser that never calls a model.
pub struct StubSummarizer;

impl StubSummarizer {
    /// "上一个会话共 N 条消息，会话目标：G。"
    pub fn summarize(&self, messages: &Vec<Message>, goal: Option<&Goal>) -> (r: String)
        ensures
            r@ == stub_summary_of(messages@.len(), match goal {
                Some(g) => Some(g.text@),
                None => None,
            }),
    {
        stub_summary(messages, goal)
    }
}

/// The titler that never calls a model: the first user message cut short.
pub struct StubTitler;

impl StubTitler {
    pub fn title(&self, messages: &Vec<Message>) -> (r: String)
        ensures
            r@ == fallback_title_of(views(messages@)),
    {
        fallback_title(messages)
    }
}

} // verus!
