//! The Responses wire protocol: its endpoint, how an HTTP error status
//! becomes a model error, token usage, and how the server-sent events of a
//! streamed response become model chunks.  The caller reads the JSON of
//! each event into `EventFields`; the HTTP exchange itself stays with it.
use vstd::prelude::*;

use crate::services::{ChunkView, ItemKind, ModelChunk, ModelError, TokenUsage};
use crate::text::{concat2, head, head_chars, owned, str_eq};

verus! {

// ---------- endpoint ----------

/// `s` without trailing '/' characters.
pub open spec fn trim_slashes(s: Seq<char>) -> Seq<char>
    decreases s.len(),
{
    if s.len() > 0 && s.last() == '/' {
        trim_slashes(s.drop_last())
    } else {
        s
    }
}

/// The responses endpoint of an API base address: trailing slashes and a
/// final "/v1" removed, "/responses" added.
pub open spec fn endpoint_of(api_url: Seq<char>) -> Seq<char> {
    let base = trim_slashes(api_url);
    let base = if base.len() >= 3 && base.skip(base.len() - 3) == "/v1"@ {
        base.take(base.len() - 3)
    } else {
        base
    };
    base + "/responses"@
}

pub fn responses_endpoint(api_url: &str) -> (r: String)
    ensures
        r@ == endpoint_of(api_url@),
{
    let n = api_url.unicode_len();
    let mut e: usize = n;
    proof {
        assert(api_url@.take(n as int) =~= api_url@);
    }
    while e > 0 && api_url.get_char(e - 1) == '/'
        invariant
            n == api_url@.len(),
            e <= n,
            trim_slashes(api_url@) == trim_slashes(api_url@.take(e as int)),
        decreases e,
    {
        proof {
            assert(api_url@.take(e as int).drop_last() =~= api_url@.take(e - 1));
        }
        e = e - 1;
    }
    let base = api_url.substring_char(0, e);
    proof {
        assert(base@ =~= api_url@.take(e as int));
        assert(trim_slashes(base@) == base@);
    }
    let m = e;
    if m >= 3 {
        let tail = base.substring_char(m - 3, m);
        if str_eq(tail, "/v1") {
            let stem = base.substring_char(0, m - 3);
            proof {
                assert(tail@ =~= base@.skip(m - 3));
                assert(stem@ =~= base@.take(m - 3));
            }
            return concat2(stem, "/responses");
        }
        proof {
            assert(tail@ =~= base@.skip(m - 3));
        }
    }
    concat2(base, "/responses")
}

// ---------- HTTP errors ----------

/// The model error of an HTTP error status (`status_text` is the status as
/// text, code and reason): the body is cut to 500 characters.
pub open spec fn status_error_of(code: u16, status_text: Seq<char>, body: Seq<char>) -> ModelErrorView {
    let b = head(body, 500);
    if code == 401 {
        ModelErrorView::AuthFailed(b)
    } else if code == 402 {
        ModelErrorView::QuotaExceeded(b)
    } else if code == 404 {
        ModelErrorView::ModelNotFound(b)
    } else if code == 429 {
        ModelErrorView::RateLimited(b)
    } else if code == 400 || code == 422 {
        ModelErrorView::Protocol(b)
    } else {
        ModelErrorView::Transport("HTTP "@ + status_text + ": "@ + b)
    }
}

pub enum ModelErrorView {
    AuthFailed(Seq<char>),
    QuotaExceeded(Seq<char>),
    ModelNotFound(Seq<char>),
    Timeout,
    Cancelled,
    RateLimited(Seq<char>),
    Transport(Seq<char>),
    Protocol(Seq<char>),
    Config(Seq<char>),
}

pub open spec fn error_view(e: ModelError) -> ModelErrorView {
    match e {
        ModelError::AuthFailed(m) => ModelErrorView::AuthFailed(m@),
        ModelError::QuotaExceeded(m) => ModelErrorView::QuotaExceeded(m@),
        ModelError::ModelNotFound(m) => ModelErrorView::ModelNotFound(m@),
        ModelError::Timeout => ModelErrorView::Timeout,
        ModelError::Cancelled => ModelErrorView::Cancelled,
        ModelError::RateLimited(m) => ModelErrorView::RateLimited(m@),
        ModelError::Transport(m) => ModelErrorView::Transport(m@),
        ModelError::Protocol(m) => ModelErrorView::Protocol(m@),
        ModelError::Config(m) => ModelErrorView::Config(m@),
    }
}

pub fn map_status_error(code: u16, status_text: &str, body: &str) -> (e: ModelError)
    ensures
        error_view(e) == status_error_of(code, status_text@, body@),
{
    let b = head_chars(body, 500);
    if code == 401 {
        ModelError::AuthFailed(b)
    } else if code == 402 {
        ModelError::QuotaExceeded(b)
    } else if code == 404 {
        ModelError::ModelNotFound(b)
    } else if code == 429 {
        ModelError::RateLimited(b)
    } else if code == 400 || code == 422 {
        ModelError::Protocol(b)
    } else {
        let mut m = concat2("HTTP ", status_text);
        m.append(": ");
        m.append(b.as_str());
        ModelError::Transport(m)
    }
}

// ---------- usage ----------

/// Token usage from the counts a response reports; the uncached input is
/// the input less the cached part (zero at least), when both are known.
pub open spec fn usage_of(input: Option<u64>, output: Option<u64>, cached: Option<u64>, reasoning: Option<u64>) -> TokenUsage {
    TokenUsage {
        input_tokens: input,
        output_tokens: output,
        cached_tokens: cached,
        cache_miss_tokens: match (input, cached) {
            (Some(i), Some(c)) => Some(if i >= c { (i - c) as u64 } else { 0 }),
            _ => None,
        },
        reasoning_tokens: reasoning,
    }
}

pub fn parse_usage(input: Option<u64>, output: Option<u64>, cached: Option<u64>, reasoning: Option<u64>) -> (u: TokenUsage)
    ensures
        u == usage_of(input, output, cached, reasoning),
{
    let miss = match (input, cached) {
        (Some(i), Some(c)) => Some(i.saturating_sub(c)),
        _ => None,
    };
    TokenUsage {
        input_tokens: input,
        output_tokens: output,
        cached_tokens: cached,
        cache_miss_tokens: miss,
        reasoning_tokens: reasoning,
    }
}

// ---------- streamed events ----------

/// What the caller read from one event's JSON data.
#[derive(Debug)]
pub struct EventFields {
    /// Whether the data was JSON at all.
    pub parsed: bool,
    /// `item.type`, `item.id`, `item.call_id`, `item.name` (strings only).
    pub item_type: Option<String>,
    pub item_id: Option<String>,
    pub call_id: Option<String>,
    pub name: Option<String>,
    /// `output_index` (unsigned integers only).
    pub output_index: Option<u64>,
    /// `delta` (strings only).
    pub delta: Option<String>,
    /// Usage counts of `response.usage` when it is an object, else of `usage`.
    pub usage_input: Option<u64>,
    pub usage_output: Option<u64>,
    pub usage_cached: Option<u64>,
    pub usage_reasoning: Option<u64>,
    /// `error.message` (strings only).
    pub error_message: Option<String>,
}

pub struct FieldsView {
    pub parsed: bool,
    pub item_type: Option<Seq<char>>,
    pub item_id: Option<Seq<char>>,
    pub call_id: Option<Seq<char>>,
    pub name: Option<Seq<char>>,
    pub output_index: Option<u64>,
    pub delta: Option<Seq<char>>,
    pub usage: TokenUsage,
    pub error_message: Option<Seq<char>>,
}

impl View for EventFields {
    type V = FieldsView;

    open spec fn view(&self) -> FieldsView {
        FieldsView {
            parsed: self.parsed,
            item_type: crate::message::opt_str(self.item_type),
            item_id: crate::message::opt_str(self.item_id),
            call_id: crate::message::opt_str(self.call_id),
            name: crate::message::opt_str(self.name),
            output_index: self.output_index,
            delta: crate::message::opt_str(self.delta),
            usage: usage_of(self.usage_input, self.usage_output, self.usage_cached, self.usage_reasoning),
            error_message: crate::message::opt_str(self.error_message),
        }
    }
}

/// Stream decoding state: the index given to the last tool call that came
/// without one, and whether the stream has ended.
pub struct StreamDecoder {
    pub last_tool_index: usize,
    pub done: bool,
}

pub enum Decoded {
    Chunk(ChunkView),
    Failed(Seq<char>),
}

pub open spec fn or_empty(o: Option<Seq<char>>) -> Seq<char> {
    match o {
        Some(s) => s,
        None => Seq::empty(),
    }
}

pub open spec fn index_or(o: Option<u64>, last: usize) -> usize {
    match o {
        Some(i) => i as usize,
        None => last,
    }
}

/// What one event gives, and the state after it.
pub open spec fn decode_event(st: StreamDecoder, name: Seq<char>, f: FieldsView) -> (StreamDecoder, Seq<Decoded>) {
    if name == "response.output_item.added"@ {
        if f.parsed && f.item_type == Some("reasoning"@) {
            (st, seq![Decoded::Chunk(ChunkView::ReasoningItemStart { id: or_empty(f.item_id) })])
        } else if f.parsed && f.item_type == Some("function_call"@) {
            let last = (if st.last_tool_index == usize::MAX { 0 } else { st.last_tool_index + 1 }) as usize;
            (
                StreamDecoder { last_tool_index: last, ..st },
                seq![
                    Decoded::Chunk(
                        ChunkView::ToolCallStart {
                            index: index_or(f.output_index, last),
                            call_id: or_empty(f.call_id),
                            name: or_empty(f.name),
                        },
                    ),
                ],
            )
        } else {
            (st, Seq::empty())
        }
    } else if name == "response.output_item.done"@ {
        if f.parsed && f.item_type == Some("message"@) {
            (st, seq![Decoded::Chunk(ChunkView::ItemDone { kind: ItemKind::Message })])
        } else if f.parsed && f.item_type == Some("function_call"@) {
            (st, seq![Decoded::Chunk(ChunkView::ItemDone { kind: ItemKind::FunctionCall })])
        } else if f.parsed && f.item_type == Some("reasoning"@) {
            (st, seq![Decoded::Chunk(ChunkView::ItemDone { kind: ItemKind::Reasoning })])
        } else {
            (st, Seq::empty())
        }
    } else if name == "response.reasoning_text.delta"@ {
        (st, seq![Decoded::Chunk(ChunkView::ReasoningDelta(if f.parsed { or_empty(f.delta) } else { Seq::empty() }))])
    } else if name == "response.output_text.delta"@ {
        (st, seq![Decoded::Chunk(ChunkView::TextDelta(if f.parsed { or_empty(f.delta) } else { Seq::empty() }))])
    } else if name == "response.function_call_arguments.delta"@ {
        if f.parsed {
            (
                st,
                seq![
                    Decoded::Chunk(
                        ChunkView::ToolCallDelta { index: index_or(f.output_index, st.last_tool_index), data: or_empty(f.delta) },
                    ),
                ],
            )
        } else {
            (st, Seq::empty())
        }
    } else if name == "response.completed"@ || name == "response.incomplete"@ {
        if st.done {
            (st, Seq::empty())
        } else if f.parsed {
            (
                StreamDecoder { done: true, ..st },
                seq![Decoded::Chunk(ChunkView::Usage(f.usage)), Decoded::Chunk(ChunkView::Done)],
            )
        } else {
            (StreamDecoder { done: true, ..st }, seq![Decoded::Chunk(ChunkView::Done)])
        }
    } else if name == "response.failed"@ && !st.done {
        (
            StreamDecoder { done: true, ..st },
            seq![
                Decoded::Failed(
                    match f.error_message {
                        Some(m) if f.parsed => m,
                        _ => "响应失败"@,
                    },
                ),
            ],
        )
    } else {
        (st, Seq::empty())
    }
}

/// The item type by which a Responses stream names each kind of output item.
pub open spec fn item_type_name(k: ItemKind) -> Seq<char> {
    match k {
        ItemKind::Message => "message"@,
        ItemKind::FunctionCall => "function_call"@,
        ItemKind::Reasoning => "reasoning"@,
    }
}

/// The end of an output item decodes to exactly one chunk, the end of an
/// item of the kind its type names, and leaves the decoder as it was.
pub proof fn lemma_item_done_kind(st: StreamDecoder, f: FieldsView, k: ItemKind)
    requires
        f.parsed,
        f.item_type == Some(item_type_name(k)),
    ensures
        decode_event(st, "response.output_item.done"@, f) == (st, seq![Decoded::Chunk(ChunkView::ItemDone { kind: k })]),
{
    reveal_strlit("response.output_item.done");
    reveal_strlit("response.output_item.added");
    reveal_strlit("message");
    reveal_strlit("function_call");
    reveal_strlit("reasoning");
    assert("message"@.len() != "function_call"@.len());
    assert("message"@.len() != "reasoning"@.len());
    assert("function_call"@.len() != "reasoning"@.len());
    assert("response.output_item.done"@.len() != "response.output_item.added"@.len());
}

pub open spec fn decoded_views(v: Seq<Result<ModelChunk, ModelError>>) -> Seq<Decoded> {
    v.map_values(
        |r: Result<ModelChunk, ModelError>|
            match r {
                Ok(c) => Decoded::Chunk(c@),
                Err(ModelError::Protocol(m)) => Decoded::Failed(m@),
                Err(_) => Decoded::Failed(Seq::empty()),
            },
    )
}

fn opt_text(o: &Option<String>) -> (r: String)
    ensures
        r@ == or_empty(crate::message::opt_str(*o)),
{
    match o {
        Some(s) => owned(s.as_str()),
        None => String::new(),
    }
}

fn is_text(o: &Option<String>, lit: &str) -> (b: bool)
    ensures
        b == (crate::message::opt_str(*o) == Some(lit@)),
{
    match o {
        Some(s) => str_eq(s.as_str(), lit),
        None => false,
    }
}

fn index_of(o: Option<u64>, last: usize) -> (i: usize)
    ensures
        i == index_or(o, last),
{
    match o {
        Some(i) => i as usize,
        None => last,
    }
}

impl StreamDecoder {
    pub fn new() -> (d: StreamDecoder)
        ensures
            d.last_tool_index == 0,
            !d.done,
    {
        StreamDecoder { last_tool_index: 0, done: false }
    }

    /// Decodes one event (its name and fields); a failed response is a
    /// protocol error.
    pub fn decode(&mut self, name: &str, f: &EventFields) -> (out: Vec<Result<ModelChunk, ModelError>>)
        ensures
            (*final(self), decoded_views(out@)) == decode_event(*old(self), name@, f@),
            name@ == "response.output_item.done"@ && f.parsed ==> forall|k: ItemKind|
                f@.item_type == Some(#[trigger] item_type_name(k)) ==> out@.len() == 1 && (out@[0] matches Ok(
                    ModelChunk::ItemDone { kind },
                ) && kind == k) && *final(self) == *old(self),
    {
        let mut out: Vec<Result<ModelChunk, ModelError>> = Vec::new();
        if str_eq(name, "response.output_item.added") {
            if f.parsed && is_text(&f.item_type, "reasoning") {
                out.push(Ok(ModelChunk::ReasoningItemStart { id: opt_text(&f.item_id) }));
            } else if f.parsed && is_text(&f.item_type, "function_call") {
                self.last_tool_index = self.last_tool_index.wrapping_add(1);
                let index = index_of(f.output_index, self.last_tool_index);
                out.push(Ok(ModelChunk::ToolCallStart { index, call_id: opt_text(&f.call_id), name: opt_text(&f.name) }));
            }
        } else if str_eq(name, "response.output_item.done") {
            if f.parsed && is_text(&f.item_type, "message") {
                out.push(Ok(ModelChunk::ItemDone { kind: ItemKind::Message }));
            } else if f.parsed && is_text(&f.item_type, "function_call") {
                out.push(Ok(ModelChunk::ItemDone { kind: ItemKind::FunctionCall }));
            } else if f.parsed && is_text(&f.item_type, "reasoning") {
                out.push(Ok(ModelChunk::ItemDone { kind: ItemKind::Reasoning }));
            }
        } else if str_eq(name, "response.reasoning_text.delta") {
            let d = if f.parsed { opt_text(&f.delta) } else { String::new() };
            out.push(Ok(ModelChunk::ReasoningDelta(d)));
        } else if str_eq(name, "response.output_text.delta") {
            let d = if f.parsed { opt_text(&f.delta) } else { String::new() };
            out.push(Ok(ModelChunk::TextDelta(d)));
        } else if str_eq(name, "response.function_call_arguments.delta") {
            if f.parsed {
                let index = index_of(f.output_index, self.last_tool_index);
                out.push(Ok(ModelChunk::ToolCallDelta { index, data: opt_text(&f.delta) }));
            }
        } else if str_eq(name, "response.completed") || str_eq(name, "response.incomplete") {
            if !self.done {
                if f.parsed {
                    let u = parse_usage(f.usage_input, f.usage_output, f.usage_cached, f.usage_reasoning);
                    out.push(Ok(ModelChunk::Usage(u)));
                }
                out.push(Ok(ModelChunk::Done));
                self.done = true;
            }
        } else if str_eq(name, "response.failed") && !self.done {
            let m = match &f.error_message {
                Some(m) => if f.parsed {
                    owned(m.as_str())
                } else {
                    owned("响应失败")
                },
                None => owned("响应失败"),
            };
            out.push(Err(ModelError::Protocol(m)));
            self.done = true;
        }
        proof {
            let (st2, chunks) = decode_event(*old(self), name@, f@);
            assert(decoded_views(out@) =~= chunks);
            if name@ == "response.output_item.done"@ && f.parsed {
                assert forall|k: ItemKind| f@.item_type == Some(#[trigger] item_type_name(k)) implies out@.len() == 1
                    && (out@[0] matches Ok(ModelChunk::ItemDone { kind }) && kind == k) && *self == *old(self) by {
                    lemma_item_done_kind(*old(self), f@, k);
                    assert(decoded_views(out@)[0] == Decoded::Chunk(ChunkView::ItemDone { kind: k }));
                }
            }
        }
        out
    }

    /// The end of the byte stream: `Done` unless the response already ended.
    pub fn finish(&self) -> (r: Option<ModelChunk>)
        ensures
            self.done ==> r is None,
            !self.done ==> r matches Some(ModelChunk::Done),
    {
        if self.done {
            None
        } else {
            Some(ModelChunk::Done)
        }
    }
}

// ---------- the non-streaming providers ----------

fn without_trailing_slashes(api_url: &str) -> (r: &str)
    ensures
        r@ == trim_slashes(api_url@),
{
    let n = api_url.unicode_len();
    let mut e: usize = n;
    proof {
        assert(api_url@.take(n as int) =~= api_url@);
    }
    while e > 0 && api_url.get_char(e - 1) == '/'
        invariant
            n == api_url@.len(),
            e <= n,
            trim_slashes(api_url@) == trim_slashes(api_url@.take(e as int)),
        decreases e,
    {
        proof {
            assert(api_url@.take(e as int).drop_last() =~= api_url@.take(e - 1));
        }
        e = e - 1;
    }
    let base = api_url.substring_char(0, e);
    proof {
        assert(base@ =~= api_url@.take(e as int));
    }
    base
}

/// The Chat Completions endpoint of an API base address.
pub fn chat_endpoint(api_url: &str) -> (r: String)
    ensures
        r@ == trim_slashes(api_url@) + "/chat/completions"@,
{
    concat2(without_trailing_slashes(api_url), "/chat/completions")
}

/// The Anthropic Messages endpoint of an API base address.
pub fn anthropic_endpoint(api_url: &str) -> (r: String)
    ensures
        r@ == trim_slashes(api_url@) + "/v1/messages"@,
{
    concat2(without_trailing_slashes(api_url), "/v1/messages")
}

/// Token usage of a Chat Completions answer: prompt, completion, cache hit
/// and cache miss counts as reported.
pub fn chat_usage(prompt: Option<u64>, completion: Option<u64>, hit: Option<u64>, miss: Option<u64>) -> (u: TokenUsage)
    ensures
        u == (TokenUsage {
            input_tokens: prompt,
            output_tokens: completion,
            cached_tokens: hit,
            cache_miss_tokens: miss,
            reasoning_tokens: None,
        }),
{
    TokenUsage { input_tokens: prompt, output_tokens: completion, cached_tokens: hit, cache_miss_tokens: miss, reasoning_tokens: None }
}

/// The stream a non-streaming provider gives: its text as one delta when
/// there is any, then the end.
pub fn reply_chunks(text: String) -> (r: Vec<Result<ModelChunk, ModelError>>)
    ensures
        text@.len() > 0 ==> decoded_views(r@) == seq![Decoded::Chunk(ChunkView::TextDelta(text@)), Decoded::Chunk(ChunkView::Done)],
        text@.len() == 0 ==> decoded_views(r@) == seq![Decoded::Chunk(ChunkView::Done)],
{
    let mut out: Vec<Result<ModelChunk, ModelError>> = Vec::new();
    let ghost t = text@;
    if text.unicode_len() > 0 {
        out.push(Ok(ModelChunk::TextDelta(text)));
    }
    out.push(Ok(ModelChunk::Done));
    proof {
        if t.len() > 0 {
            assert(decoded_views(out@) =~= seq![Decoded::Chunk(ChunkView::TextDelta(t)), Decoded::Chunk(ChunkView::Done)]);
        } else {
            assert(decoded_views(out@) =~= seq![Decoded::Chunk(ChunkView::Done)]);
        }
    }
    out
}

} // verus!
