//! Service contract: service ids, the model provider's request and response
//! values, model errors and the fixed-reply model stub.
use vstd::prelude::*;

use crate::text::owned;

verus! {

/// Service identity (closed set).
#[derive(Debug, Clone, Copy, PartialEq, Eq, Hash, Structural)]
pub enum ServiceId {
    Storage,
    Memory,
    Compute,
    Model,
}

/// Which model a request goes to.
#[derive(Debug, Clone, Copy, PartialEq, Eq, Structural)]
pub enum ModelKind {
    Main,
    Vision,
}

/// How the model must use tools.
#[derive(Debug)]
pub enum ToolChoice {
    Auto,
    Required,
    Function { name: String },
}

/// Kind of an output item that finished.
#[derive(Debug, Clone, Copy, PartialEq, Eq, Structural)]
pub enum ItemKind {
    Message,
    FunctionCall,
    Reasoning,
}

/// Token accounting of one model call.
#[derive(Debug, Clone, Copy, PartialEq, Eq, Structural)]
pub struct TokenUsage {
    pub input_tokens: Option<u64>,
    pub output_tokens: Option<u64>,
    pub cached_tokens: Option<u64>,
    pub cache_miss_tokens: Option<u64>,
    pub reasoning_tokens: Option<u64>,
}

impl TokenUsage {
    /// Usage with only input and output counts.
    pub fn io(input: u64, output: u64) -> (u: TokenUsage)
        ensures
            u == (TokenUsage {
                input_tokens: Some(input),
                output_tokens: Some(output),
                cached_tokens: None,
                cache_miss_tokens: None,
                reasoning_tokens: None,
            }),
    {
        TokenUsage {
            input_tokens: Some(input),
            output_tokens: Some(output),
            cached_tokens: None,
            cache_miss_tokens: None,
            reasoning_tokens: None,
        }
    }
}

/// One piece of a streamed model answer.
#[derive(Debug)]
pub enum ModelChunk {
    TextDelta(String),
    ReasoningDelta(String),
    ReasoningItemStart { id: String },
    ToolCallStart { index: usize, call_id: String, name: String },
    ToolCallDelta { index: usize, data: String },
    ItemDone { kind: ItemKind },
    Usage(TokenUsage),
    Done,
}

pub enum ChunkView {
    TextDelta(Seq<char>),
    ReasoningDelta(Seq<char>),
    ReasoningItemStart { id: Seq<char> },
    ToolCallStart { index: usize, call_id: Seq<char>, name: Seq<char> },
    ToolCallDelta { index: usize, data: Seq<char> },
    ItemDone { kind: ItemKind },
    Usage(TokenUsage),
    Done,
}

impl View for ModelChunk {
    type V = ChunkView;

    open spec fn view(&self) -> ChunkView {
        match *self {
            ModelChunk::TextDelta(s) => ChunkView::TextDelta(s@),
            ModelChunk::ReasoningDelta(s) => ChunkView::ReasoningDelta(s@),
            ModelChunk::ReasoningItemStart { id } => ChunkView::ReasoningItemStart { id: id@ },
            ModelChunk::ToolCallStart { index, call_id, name } => ChunkView::ToolCallStart {
                index,
                call_id: call_id@,
                name: name@,
            },
            ModelChunk::ToolCallDelta { index, data } => ChunkView::ToolCallDelta { index, data: data@ },
            ModelChunk::ItemDone { kind } => ChunkView::ItemDone { kind },
            ModelChunk::Usage(u) => ChunkView::Usage(u),
            ModelChunk::Done => ChunkView::Done,
        }
    }
}

/// A complete tool call of a non-streamed answer.
#[derive(Debug)]
pub struct ToolCallSpec {
    pub call_id: String,
    pub name: String,
    pub arguments: String,
}

pub struct CallView {
    pub call_id: Seq<char>,
    pub name: Seq<char>,
    pub arguments: Seq<char>,
}

impl View for ToolCallSpec {
    type V = CallView;

    open spec fn view(&self) -> CallView {
        CallView { call_id: self.call_id@, name: self.name@, arguments: self.arguments@ }
    }
}

/// A non-streamed model answer.
#[derive(Debug)]
pub struct ModelResponse {
    pub text: String,
    pub tool_calls: Vec<ToolCallSpec>,
    pub usage: Option<TokenUsage>,
}

pub struct ResponseView {
    pub text: Seq<char>,
    pub tool_calls: Seq<CallView>,
    pub usage: Option<TokenUsage>,
}

impl View for ModelResponse {
    type V = ResponseView;

    open spec fn view(&self) -> ResponseView {
        ResponseView {
            text: self.text@,
            tool_calls: self.tool_calls@.map_values(|c: ToolCallSpec| c@),
            usage: self.usage,
        }
    }
}

/// Model provider errors.
#[derive(Debug)]
pub enum ModelError {
    AuthFailed(String),
    QuotaExceeded(String),
    ModelNotFound(String),
    Timeout,
    Cancelled,
    RateLimited(String),
    Transport(String),
    Protocol(String),
    Config(String),
}

impl ModelError {
    /// Errors that retrying cannot cure: authentication, quota, unknown model.
    pub open spec fn systemic(&self) -> bool {
        self is AuthFailed || self is QuotaExceeded || self is ModelNotFound
    }

    pub fn is_systemic(&self) -> (b: bool)
        ensures
            b == self.systemic(),
    {
        match self {
            ModelError::AuthFailed(_) | ModelError::QuotaExceeded(_) | ModelError::ModelNotFound(_) => true,
            _ => false,
        }
    }
}

// ---------- folding a stream into an answer ----------

/// The answer a chunk sequence adds up to: text deltas concatenated, tool
/// calls in start order with their argument deltas appended (a delta goes to
/// the first call started with its index), the last usage seen.
pub open spec fn folded(chunks: Seq<ChunkView>) -> ResponseView
    decreases chunks.len(),
{
    if chunks.len() == 0 {
        ResponseView { text: Seq::empty(), tool_calls: Seq::empty(), usage: None }
    } else {
        let r = folded(chunks.drop_last());
        match chunks.last() {
            ChunkView::TextDelta(d) => ResponseView { text: r.text + d, ..r },
            ChunkView::ToolCallStart { index, call_id, name } => ResponseView {
                tool_calls: r.tool_calls.push(CallView { call_id, name, arguments: Seq::empty() }),
                ..r
            },
            ChunkView::ToolCallDelta { index, data } => {
                let k = first_call_with_index(started_indices(chunks.drop_last()), index);
                if k >= 0 {
                    ResponseView {
                        tool_calls: r.tool_calls.update(
                            k,
                            CallView { arguments: r.tool_calls[k].arguments + data, ..r.tool_calls[k] },
                        ),
                        ..r
                    }
                } else {
                    r
                }
            },
            ChunkView::Usage(u) => ResponseView { usage: Some(u), ..r },
            _ => r,
        }
    }
}

/// Indices of the tool calls started so far, in start order.
pub open spec fn started_indices(chunks: Seq<ChunkView>) -> Seq<usize>
    decreases chunks.len(),
{
    if chunks.len() == 0 {
        Seq::empty()
    } else {
        let s = started_indices(chunks.drop_last());
        match chunks.last() {
            ChunkView::ToolCallStart { index, .. } => s.push(index),
            _ => s,
        }
    }
}

/// Position of the first entry equal to `index`, or -1.
pub open spec fn first_call_with_index(s: Seq<usize>, index: usize) -> int
    decreases s.len(),
{
    if s.len() == 0 {
        -1
    } else if first_call_with_index(s.drop_last(), index) >= 0 {
        first_call_with_index(s.drop_last(), index)
    } else if s.last() == index {
        s.len() - 1
    } else {
        -1
    }
}

proof fn lemma_first_call_range(s: Seq<usize>, index: usize)
    ensures
        -1 <= first_call_with_index(s, index) < s.len(),
        first_call_with_index(s, index) >= 0 ==> s[first_call_with_index(s, index)] == index,
        first_call_with_index(s, index) >= 0 ==> forall|j: int|
            0 <= j < first_call_with_index(s, index) ==> s[j] != index,
        first_call_with_index(s, index) < 0 ==> forall|j: int| 0 <= j < s.len() ==> s[j] != index,
    decreases s.len(),
{
    if s.len() > 0 {
        lemma_first_call_range(s.drop_last(), index);
        assert forall|j: int| 0 <= j < s.len() - 1 implies s.drop_last()[j] == s[j] by {}
    }
}

proof fn lemma_folded_calls_len(chunks: Seq<ChunkView>)
    ensures
        folded(chunks).tool_calls.len() == started_indices(chunks).len(),
    decreases chunks.len(),
{
    if chunks.len() > 0 {
        lemma_folded_calls_len(chunks.drop_last());
        let k = first_call_with_index(started_indices(chunks.drop_last()), 0);
        lemma_first_call_range(started_indices(chunks.drop_last()), 0);
        match chunks.last() {
            ChunkView::ToolCallDelta { index, data } => {
                lemma_first_call_range(started_indices(chunks.drop_last()), index);
            },
            _ => {},
        }
    }
}

pub open spec fn chunk_results(v: Seq<Result<ModelChunk, ModelError>>) -> Seq<Result<ChunkView, ModelError>> {
    v.map_values(
        |r: Result<ModelChunk, ModelError>|
            match r {
                Ok(c) => Ok(c@),
                Err(e) => Err(e),
            },
    )
}

/// Index of the first error in a stream, or -1.
pub open spec fn first_error(v: Seq<Result<ChunkView, ModelError>>) -> int
    decreases v.len(),
{
    if v.len() == 0 {
        -1
    } else if first_error(v.drop_last()) >= 0 {
        first_error(v.drop_last())
    } else if v.last() is Err {
        v.len() - 1
    } else {
        -1
    }
}

pub open spec fn oks(v: Seq<Result<ChunkView, ModelError>>) -> Seq<ChunkView> {
    v.map_values(|r: Result<ChunkView, ModelError>| r->Ok_0)
}

pub open spec fn call_views(v: Seq<(usize, ToolCallSpec)>) -> Seq<CallView> {
    v.map_values(|p: (usize, ToolCallSpec)| p.1@)
}

pub open spec fn call_indices(v: Seq<(usize, ToolCallSpec)>) -> Seq<usize> {
    v.map_values(|p: (usize, ToolCallSpec)| p.0)
}

fn find_call(calls: &Vec<(usize, ToolCallSpec)>, index: usize) -> (r: Option<usize>)
    ensures
        match r {
            Some(k) => k as int == first_call_with_index(call_indices(calls@), index) && k < calls@.len(),
            None => first_call_with_index(call_indices(calls@), index) < 0,
        },
{
    let ghost s = call_indices(calls@);
    proof {
        lemma_first_call_range(s, index);
    }
    let mut k: usize = 0;
    while k < calls.len()
        invariant
            s == call_indices(calls@),
            k <= calls@.len(),
            forall|j: int| 0 <= j < k ==> s[j] != index,
            -1 <= first_call_with_index(s, index) < s.len(),
            first_call_with_index(s, index) >= 0 ==> s[first_call_with_index(s, index)] == index,
            first_call_with_index(s, index) >= 0 ==> forall|j: int|
                0 <= j < first_call_with_index(s, index) ==> s[j] != index,
            first_call_with_index(s, index) < 0 ==> forall|j: int| 0 <= j < s.len() ==> s[j] != index,
        decreases calls.len() - k,
    {
        if calls[k].0 == index {
            assert(s[k as int] == index);
            return Some(k);
        }
        assert(s[k as int] != index);
        k = k + 1;
    }
    None
}

/// Adds a streamed answer up (the provider's non-streaming `complete`): the
/// first error in the stream is the result; else the folded answer.
pub fn collect_response(chunks: Vec<Result<ModelChunk, ModelError>>) -> (r: Result<ModelResponse, ModelError>)
    ensures
        ({
            let v = chunk_results(chunks@);
            let k = first_error(v);
            if k >= 0 {
                r == Err::<ModelResponse, ModelError>(v[k]->Err_0)
            } else {
                r matches Ok(resp) && resp@ == folded(oks(v))
            }
        }),
{
    let ghost v = chunk_results(chunks@);
    let mut text = String::new();
    let mut calls: Vec<(usize, ToolCallSpec)> = Vec::new();
    let mut usage: Option<TokenUsage> = None;
    let mut i: usize = 0;
    proof {
        assert(v.take(0) =~= Seq::<Result<ChunkView, ModelError>>::empty());
        assert(oks(v.take(0)) =~= Seq::<ChunkView>::empty());
        assert(text@ =~= Seq::<char>::empty());
        assert(call_views(calls@) =~= Seq::<CallView>::empty());
    }
    while i < chunks.len()
        invariant
            v == chunk_results(chunks@),
            i <= chunks@.len(),
            first_error(v.take(i as int)) < 0,
            text@ == folded(oks(v.take(i as int))).text,
            call_views(calls@) == folded(oks(v.take(i as int))).tool_calls,
            call_indices(calls@) == started_indices(oks(v.take(i as int))),
            usage == folded(oks(v.take(i as int))).usage,
        decreases chunks.len() - i,
    {
        let ghost pre = v.take(i as int);
        let ghost next = v.take(i + 1);
        proof {
            assert(next.drop_last() =~= pre);
            assert(next.last() == v[i as int]);
            assert(oks(next).drop_last() =~= oks(pre));
            lemma_folded_calls_len(oks(pre));
        }
        if chunks[i].is_err() {
            proof {
                assert(first_error(next) == i as int);
                lemma_first_error_prefix(v, i as int + 1);
            }
            let mut chunks = chunks;
            match chunks.remove(i) {
                Err(e) => return Err(e),
                Ok(_) => return Err(ModelError::Timeout),
            }
        }
        match &chunks[i] {
            Err(_) => {},
            Ok(c) => {
                proof {
                    assert(oks(next).last() == c@);
                    assert(first_error(next) < 0);
                }
                match c {
                    ModelChunk::TextDelta(d) => {
                        text.append(d.as_str());
                    },
                    ModelChunk::ToolCallStart { index, call_id, name } => {
                        let ghost before = calls@;
                        calls.push(
                            (*index, ToolCallSpec { call_id: owned(call_id.as_str()), name: owned(name.as_str()), arguments: String::new() }),
                        );
                        proof {
                            assert(call_views(calls@) =~= call_views(before).push(calls@.last().1@));
                            assert(call_indices(calls@) =~= call_indices(before).push(*index));
                        }
                    },
                    ModelChunk::ToolCallDelta { index, data } => {
                        match find_call(&calls, *index) {
                            Some(k) => {
                                let ghost before = calls@;
                                let (ix, old_spec) = calls.remove(k);
                                let mut args = old_spec.arguments;
                                args.append(data.as_str());
                                let spec = ToolCallSpec { call_id: old_spec.call_id, name: old_spec.name, arguments: args };
                                calls.insert(k, (ix, spec));
                                proof {
                                    assert(calls@ =~= before.update(k as int, (ix, spec)));
                                    assert(call_views(calls@) =~= call_views(before).update(k as int, spec@));
                                    assert(call_indices(calls@) =~= call_indices(before));
                                }
                            },
                            None => {},
                        }
                    },
                    ModelChunk::Usage(u) => {
                        usage = Some(*u);
                    },
                    _ => {},
                }
            },
        }
        i = i + 1;
    }
    proof {
        assert(v.take(chunks@.len() as int) =~= v);
    }
    Ok(ModelResponse { text, tool_calls: calls_only(calls), usage })
}

fn calls_only(calls: Vec<(usize, ToolCallSpec)>) -> (r: Vec<ToolCallSpec>)
    ensures
        r@.map_values(|c: ToolCallSpec| c@) == call_views(calls@),
{
    let mut calls = calls;
    let mut rev: Vec<ToolCallSpec> = Vec::new();
    let ghost all = call_views(calls@);
    while calls.len() > 0
        invariant
            all == call_views(calls@) + rev@.map_values(|c: ToolCallSpec| c@).reverse(),
        decreases calls.len(),
    {
        let ghost before_calls = calls@;
        let ghost before_rev = rev@;
        let (_, c) = calls.pop().unwrap();
        rev.push(c);
        proof {
            assert(call_views(before_calls) =~= call_views(calls@).push(c@));
            assert(rev@.map_values(|c: ToolCallSpec| c@) =~= before_rev.map_values(|c: ToolCallSpec| c@).push(c@));
            assert(rev@.map_values(|c: ToolCallSpec| c@).reverse() =~= seq![c@] + before_rev.map_values(
                |c: ToolCallSpec| c@,
            ).reverse());
        }
    }
    let mut out: Vec<ToolCallSpec> = Vec::new();
    proof {
        assert(call_views(calls@) =~= Seq::<CallView>::empty());
        assert(all =~= rev@.map_values(|c: ToolCallSpec| c@).reverse());
    }
    while rev.len() > 0
        invariant
            all == out@.map_values(|c: ToolCallSpec| c@) + rev@.map_values(|c: ToolCallSpec| c@).reverse(),
        decreases rev.len(),
    {
        let ghost before_rev = rev@;
        let ghost before_out = out@;
        let c = rev.pop().unwrap();
        out.push(c);
        proof {
            assert(before_rev.map_values(|c: ToolCallSpec| c@) =~= rev@.map_values(|c: ToolCallSpec| c@).push(c@));
            assert(before_rev.map_values(|c: ToolCallSpec| c@).reverse() =~= seq![c@] + rev@.map_values(
                |c: ToolCallSpec| c@,
            ).reverse());
            assert(out@.map_values(|c: ToolCallSpec| c@) =~= before_out.map_values(|c: ToolCallSpec| c@).push(c@));
        }
    }
    proof {
        assert(all =~= out@.map_values(|c: ToolCallSpec| c@));
    }
    out
}

proof fn lemma_first_error_prefix(v: Seq<Result<ChunkView, ModelError>>, n: int)
    requires
        0 <= n <= v.len(),
        first_error(v.take(n)) >= 0,
    ensures
        first_error(v) == first_error(v.take(n)),
    decreases v.len() - n,
{
    if n < v.len() {
        assert(v.take(n + 1).drop_last() =~= v.take(n));
        lemma_first_error_prefix(v, n + 1);
    } else {
        assert(v.take(n) =~= v);
    }
}

// ---------- the fixed-reply model ----------

/// Model stub that always answers the same text (self-checks and tests).
#[derive(Clone, Copy)]
pub struct MockModelService {
    reply: &'static str,
}

impl MockModelService {
    pub closed spec fn reply_text(&self) -> Seq<char> {
        self.reply@
    }

    pub fn new(reply: &'static str) -> (m: MockModelService)
        ensures
            m.reply_text() == reply@,
    {
        MockModelService { reply }
    }

    /// The stub with its default reply.
    pub fn default_reply() -> (m: MockModelService)
        ensures
            m.reply_text() == "你好，我是 so-lite-agent。"@,
    {
        MockModelService { reply: "你好，我是 so-lite-agent。" }
    }

    /// The streamed answer: the reply as one text delta, the end of the
    /// message item, a usage of one input and one output token, done.
    pub fn stream(&self) -> (r: Vec<Result<ModelChunk, ModelError>>)
        ensures
            chunk_results(r@) == seq![
                Ok::<ChunkView, ModelError>(ChunkView::TextDelta(self.reply_text())),
                Ok::<ChunkView, ModelError>(ChunkView::ItemDone { kind: ItemKind::Message }),
                Ok::<ChunkView, ModelError>(ChunkView::Usage(TokenUsage {
                    input_tokens: Some(1),
                    output_tokens: Some(1),
                    cached_tokens: None,
                    cache_miss_tokens: None,
                    reasoning_tokens: None,
                })),
                Ok::<ChunkView, ModelError>(ChunkView::Done),
            ],
    {
        let mut v: Vec<Result<ModelChunk, ModelError>> = Vec::new();
        v.push(Ok(ModelChunk::TextDelta(owned(self.reply))));
        v.push(Ok(ModelChunk::ItemDone { kind: ItemKind::Message }));
        v.push(Ok(ModelChunk::Usage(TokenUsage::io(1, 1))));
        v.push(Ok(ModelChunk::Done));
        assert(chunk_results(v@) =~= seq![
            Ok::<ChunkView, ModelError>(ChunkView::TextDelta(self.reply_text())),
            Ok::<ChunkView, ModelError>(ChunkView::ItemDone { kind: ItemKind::Message }),
            Ok::<ChunkView, ModelError>(ChunkView::Usage(TokenUsage {
                input_tokens: Some(1),
                output_tokens: Some(1),
                cached_tokens: None,
                cache_miss_tokens: None,
                reasoning_tokens: None,
            })),
            Ok::<ChunkView, ModelError>(ChunkView::Done),
        ]);
        v
    }

    /// The non-streamed answer: the reply, no tool call, one input and one
    /// output token.
    pub fn complete(&self) -> (r: ModelResponse)
        ensures
            r@ == (ResponseView {
                text: self.reply_text(),
                tool_calls: Seq::empty(),
                usage: Some(TokenUsage {
                    input_tokens: Some(1),
                    output_tokens: Some(1),
                    cached_tokens: None,
                    cache_miss_tokens: None,
                    reasoning_tokens: None,
                }),
            }),
    {
        let calls: Vec<ToolCallSpec> = Vec::new();
        let r = ModelResponse { text: owned(self.reply), tool_calls: calls, usage: Some(TokenUsage::io(1, 1)) };
        assert(r@.tool_calls =~= Seq::<CallView>::empty());
        r
    }
}

/// The stub's two answers agree: adding up its stream gives its
/// non-streamed answer.
pub proof fn lemma_mock_stream_adds_up(m: MockModelService)
    ensures
        ({
            let v = seq![
                Ok::<ChunkView, ModelError>(ChunkView::TextDelta(m.reply_text())),
                Ok::<ChunkView, ModelError>(ChunkView::ItemDone { kind: ItemKind::Message }),
                Ok::<ChunkView, ModelError>(ChunkView::Usage(TokenUsage {
                    input_tokens: Some(1),
                    output_tokens: Some(1),
                    cached_tokens: None,
                    cache_miss_tokens: None,
                    reasoning_tokens: None,
                })),
                Ok::<ChunkView, ModelError>(ChunkView::Done),
            ];
            &&& first_error(v) < 0
            &&& folded(oks(v)) == (ResponseView {
                text: m.reply_text(),
                tool_calls: Seq::empty(),
                usage: Some(TokenUsage {
                    input_tokens: Some(1),
                    output_tokens: Some(1),
                    cached_tokens: None,
                    cache_miss_tokens: None,
                    reasoning_tokens: None,
                }),
            })
        }),
{
    let u = TokenUsage {
        input_tokens: Some(1),
        output_tokens: Some(1),
        cached_tokens: None,
        cache_miss_tokens: None,
        reasoning_tokens: None,
    };
    let v = seq![
        Ok::<ChunkView, ModelError>(ChunkView::TextDelta(m.reply_text())),
        Ok::<ChunkView, ModelError>(ChunkView::ItemDone { kind: ItemKind::Message }),
        Ok::<ChunkView, ModelError>(ChunkView::Usage(u)),
        Ok::<ChunkView, ModelError>(ChunkView::Done),
    ];
    let c = oks(v);
    let c0 = Seq::<ChunkView>::empty();
    let c1 = c0.push(ChunkView::TextDelta(m.reply_text()));
    let c2 = c1.push(ChunkView::ItemDone { kind: ItemKind::Message });
    let c3 = c2.push(ChunkView::Usage(u));
    let c4 = c3.push(ChunkView::Done);
    assert(c =~= c4);
    assert(c4.drop_last() =~= c3);
    assert(c3.drop_last() =~= c2);
    assert(c2.drop_last() =~= c1);
    assert(c1.drop_last() =~= c0);
    assert(folded(c0).text =~= Seq::<char>::empty());
    assert(folded(c0).tool_calls =~= Seq::<CallView>::empty());
    assert(c1.last() == ChunkView::TextDelta(m.reply_text()));
    assert(folded(c1).text =~= Seq::<char>::empty() + m.reply_text());
    assert(folded(c1).text =~= m.reply_text());
    assert(folded(c1).tool_calls =~= Seq::<CallView>::empty());
    assert(folded(c2) == folded(c1));
    assert(folded(c4) == folded(c3));
    let w0 = Seq::<Result<ChunkView, ModelError>>::empty();
    let w1 = w0.push(v[0]);
    let w2 = w1.push(v[1]);
    let w3 = w2.push(v[2]);
    assert(v =~= w3.push(v[3]));
    assert(w3.push(v[3]).drop_last() =~= w3);
    assert(w3.drop_last() =~= w2);
    assert(w2.drop_last() =~= w1);
    assert(w1.drop_last() =~= w0);
    assert(first_error(w0) == -1);
    assert(first_error(w1) == -1);
    assert(first_error(w2) == -1);
    assert(first_error(w3) == -1);
    assert(first_error(v) == -1);
    assert(folded(c3).usage == Some(u));
    assert(folded(c3).text == folded(c2).text);
    assert(folded(c3).tool_calls == folded(c2).tool_calls);
    assert(folded(c) == folded(c4));
}

} // verus!
