//! Decisions of the agent loop: the guard rails of a turn (how many tool
//! calls, how many failures in a row) and how one model step's streamed
//! chunks become messages and finished tool calls.  The loop of a turn is
//! the state machine in `turn`; running the model and the tools stays with
//! the caller, which hands each result back.
use vstd::prelude::*;

use crate::contract::ToolErrorCode;
use crate::message::{append_to_path, KindView, Message, MessageId, MessageKind, MessageView};
use crate::services::{ChunkView, ItemKind, ModelChunk};
use crate::store::views;
use crate::text::owned;

verus! {

/// Why a turn ended.
#[derive(Debug, Clone, Copy, PartialEq, Eq, Structural)]
pub enum StopReason {
    Natural,
    ToolCallLimit,
    ConsecutiveFailures,
    TurnTimeout,
    UserAborted,
    Failed,
}

/// Most tool calls in one turn.
pub const MAX_TOOL_CALLS: usize = 25;

/// Failures in a row (same error code) that end a turn.
pub const MAX_CONSECUTIVE_FAILURES: usize = 3;

/// Guard-rail counters of one turn.
pub struct TurnGuard {
    pub tool_calls: usize,
    pub consecutive_failures: usize,
    pub last_code: Option<ToolErrorCode>,
}

/// Length of the run of failures with one code at the end of a sequence of
/// tool results (`None` a success); a success ends a run.
pub open spec fn trailing_run(results: Seq<Option<ToolErrorCode>>) -> nat
    decreases results.len(),
{
    if results.len() == 0 {
        0
    } else {
        match results.last() {
            None => 0,
            Some(c) => {
                let before = results.drop_last();
                if before.len() > 0 && before.last() == Some(c) {
                    trailing_run(before) + 1
                } else {
                    1
                }
            },
        }
    }
}

/// The code of the last failure in a sequence of results.
pub open spec fn last_failure(results: Seq<Option<ToolErrorCode>>) -> Option<ToolErrorCode>
    decreases results.len(),
{
    if results.len() == 0 {
        None
    } else {
        match results.last() {
            Some(c) => Some(c),
            None => last_failure(results.drop_last()),
        }
    }
}

impl TurnGuard {
    /// Counters of a turn that has not called a tool yet.
    pub fn new() -> (g: TurnGuard)
        ensures
            g.tool_calls == 0,
            g.consecutive_failures == 0,
            g.last_code is None,
    {
        TurnGuard { tool_calls: 0, consecutive_failures: 0, last_code: None }
    }

    /// A turn still running: within both limits.
    pub open spec fn running(&self) -> bool {
        self.tool_calls <= MAX_TOOL_CALLS && self.consecutive_failures < MAX_CONSECUTIVE_FAILURES
    }

    /// Counts a tool call about to run; `true` when it is over the limit and
    /// the turn stops (`ToolCallLimit`) without running it.
    pub fn begin_call(&mut self) -> (stop: bool)
        requires
            old(self).running(),
        ensures
            final(self).tool_calls == old(self).tool_calls + 1,
            final(self).consecutive_failures == old(self).consecutive_failures,
            final(self).last_code == old(self).last_code,
            stop == (final(self).tool_calls > MAX_TOOL_CALLS),
    {
        self.tool_calls = self.tool_calls + 1;
        self.tool_calls > MAX_TOOL_CALLS
    }

    /// Records a tool result (`None` a success, else the error code); `true`
    /// when this failure is the third in a row with the same code and the
    /// turn stops (`ConsecutiveFailures`).  A success resets the run.
    pub fn record_result(&mut self, failure: Option<ToolErrorCode>) -> (stop: bool)
        requires
            old(self).running(),
        ensures
            final(self).tool_calls == old(self).tool_calls,
            final(self).consecutive_failures == match failure {
                None => 0,
                Some(c) => if old(self).last_code == Some(c) {
                    old(self).consecutive_failures + 1
                } else {
                    1
                },
            },
            final(self).last_code == match failure {
                None => old(self).last_code,
                Some(c) => Some(c),
            },
            stop == (final(self).consecutive_failures >= MAX_CONSECUTIVE_FAILURES),
    {
        match failure {
            None => {
                self.consecutive_failures = 0;
            },
            Some(c) => {
                if self.last_code == Some(c) {
                    self.consecutive_failures = self.consecutive_failures + 1;
                } else {
                    self.consecutive_failures = 1;
                }
                self.last_code = Some(c);
            },
        }
        self.consecutive_failures >= MAX_CONSECUTIVE_FAILURES
    }
}

/// The guard after a sequence of results, from a fresh guard.
pub open spec fn guard_after(results: Seq<Option<ToolErrorCode>>) -> (nat, Option<ToolErrorCode>)
    decreases results.len(),
{
    if results.len() == 0 {
        (0, None)
    } else {
        let (n, last) = guard_after(results.drop_last());
        match results.last() {
            None => (0, last),
            Some(c) => if last == Some(c) {
                (n + 1, Some(c))
            } else {
                (1, Some(c))
            },
        }
    }
}

/// The failure counter counts exactly the trailing run of failures with one
/// code: after any sequence of results the guard's count is that run's
/// length, and its last code is the last failure's.
pub proof fn lemma_guard_counts_trailing_run(results: Seq<Option<ToolErrorCode>>)
    ensures
        guard_after(results).0 == trailing_run(results),
        guard_after(results).1 == last_failure(results),
        guard_after(results).0 > 0 ==> results.last() == guard_after(results).1,
    decreases results.len(),
{
    if results.len() > 0 {
        let before = results.drop_last();
        lemma_guard_counts_trailing_run(before);
        match results.last() {
            None => {},
            Some(c) => {
                if guard_after(before).1 == Some(c) {
                    if guard_after(before).0 > 0 {
                        assert(before.last() == Some(c));
                    } else {
                        // the last result before was a success, or there was none
                        if before.len() > 0 {
                            assert(trailing_run(before) == 0);
                            assert(before.last() is None || before.last() != Some(c)) by {
                                if before.last() == Some(c) {
                                    assert(trailing_run(before) >= 1);
                                }
                            }
                        }
                    }
                } else {
                    if before.len() > 0 && before.last() == Some(c) {
                        assert(last_failure(before) == Some(c));
                    }
                }
            },
        }
    }
}

// ---------- one model step ----------

/// A tool call being streamed: its name and the arguments so far.
pub struct ToolCallAcc {
    pub name: String,
    pub arguments: String,
}

pub struct AccView {
    pub name: Seq<char>,
    pub arguments: Seq<char>,
}

impl View for ToolCallAcc {
    type V = AccView;

    open spec fn view(&self) -> AccView {
        AccView { name: self.name@, arguments: self.arguments@ }
    }
}

pub open spec fn acc_views(v: Seq<(usize, ToolCallAcc)>) -> Seq<(usize, AccView)> {
    v.map_values(|p: (usize, ToolCallAcc)| (p.0, p.1@))
}

/// Keys strictly increasing.
pub open spec fn sorted_keys(s: Seq<(usize, AccView)>) -> bool {
    forall|i: int, j: int| 0 <= i < j < s.len() ==> (#[trigger] s[i]).0 < (#[trigger] s[j]).0
}

/// Number of entries with a key below `k`.
pub open spec fn lower_bound(s: Seq<(usize, AccView)>, k: usize) -> int
    decreases s.len(),
{
    if s.len() == 0 {
        0
    } else if s[0].0 < k {
        1 + lower_bound(s.drop_first(), k)
    } else {
        0
    }
}

/// Ordered-map insert: the entry with key `k` replaced, or added in order.
pub open spec fn map_insert(s: Seq<(usize, AccView)>, k: usize, v: AccView) -> Seq<(usize, AccView)> {
    let p = lower_bound(s, k);
    if p < s.len() && s[p].0 == k {
        s.update(p, (k, v))
    } else {
        s.insert(p, (k, v))
    }
}

/// Ordered-map update of the arguments of key `k`, when present.
pub open spec fn map_append(s: Seq<(usize, AccView)>, k: usize, data: Seq<char>) -> Seq<(usize, AccView)> {
    let p = lower_bound(s, k);
    if p < s.len() && s[p].0 == k {
        s.update(p, (k, AccView { arguments: s[p].1.arguments + data, ..s[p].1 }))
    } else {
        s
    }
}

/// A message hung at the end of a chain (`append_to_path`).
pub open spec fn hung(conv: Seq<MessageView>, m: MessageView) -> Seq<MessageView> {
    conv.push(
        MessageView {
            parent_id: if conv.len() > 0 {
                Some(conv.last().id)
            } else {
                None
            },
            ..m
        },
    )
}

pub struct StepView {
    pub bubble: Option<MessageView>,
    pub reasoning: Option<MessageView>,
    pub calls: Seq<(usize, AccView)>,
    pub done: Seq<(usize, AccView)>,
    pub finished: bool,
}

/// What a chunk makes the caller report.
pub enum StepEvent {
    MessageDelta { message_id: MessageId, delta: String },
    ReasoningDelta { delta: String },
    /// An assistant message with text was finished and added.
    MessageCompleted { message_id: MessageId },
}

/// State of one model step while its chunks arrive: the assistant bubble
/// and the reasoning item being written, the tool calls being streamed (an
/// ordered map by index) and those finished, and whether the stream said it
/// is done.
pub struct StepState {
    bubble: Option<Message>,
    reasoning: Option<Message>,
    calls: Vec<(usize, ToolCallAcc)>,
    done: Vec<(usize, ToolCallAcc)>,
    finished: bool,
}

pub open spec fn opt_msg_view(m: Option<Message>) -> Option<MessageView> {
    match m {
        Some(m) => Some(m@),
        None => None,
    }
}

impl StepState {
    pub closed spec fn view(&self) -> StepView {
        StepView {
            bubble: opt_msg_view(self.bubble),
            reasoning: opt_msg_view(self.reasoning),
            calls: acc_views(self.calls@),
            done: acc_views(self.done@),
            finished: self.finished,
        }
    }

    /// The bubble is an assistant message, the reasoning item a reasoning
    /// message, and the streamed calls are ordered by index.
    pub open spec fn wf(&self) -> bool {
        &&& (self.view().bubble matches Some(b) ==> b.kind is Assistant)
        &&& (self.view().reasoning matches Some(r) ==> r.kind is Reasoning)
        &&& sorted_keys(self.view().calls)
    }

    pub fn new() -> (s: StepState)
        ensures
            s.wf(),
            s.view() == (StepView {
                bubble: None,
                reasoning: None,
                calls: Seq::empty(),
                done: Seq::empty(),
                finished: false,
            }),
    {
        let s = StepState { bubble: None, reasoning: None, calls: Vec::new(), done: Vec::new(), finished: false };
        assert(s.view().calls =~= Seq::<(usize, AccView)>::empty());
        assert(s.view().done =~= Seq::<(usize, AccView)>::empty());
        s
    }

    pub fn is_finished(&self) -> (b: bool)
        ensures
            b == self.view().finished,
    {
        self.finished
    }

    /// The finished tool calls, in the order they finished.
    pub fn into_done(self) -> (r: Vec<(usize, ToolCallAcc)>)
        ensures
            acc_views(r@) == self.view().done,
    {
        self.done
    }
}

proof fn lemma_lower_bound(s: Seq<(usize, AccView)>, k: usize)
    requires
        sorted_keys(s),
    ensures
        0 <= lower_bound(s, k) <= s.len(),
        forall|i: int| 0 <= i < lower_bound(s, k) ==> (#[trigger] s[i]).0 < k,
        forall|i: int| lower_bound(s, k) <= i < s.len() ==> (#[trigger] s[i]).0 >= k,
    decreases s.len(),
{
    if s.len() > 0 {
        let t = s.drop_first();
        assert forall|i: int, j: int| 0 <= i < j < t.len() implies (#[trigger] t[i]).0 < (#[trigger] t[j]).0 by {
            assert(t[i] == s[i + 1]);
            assert(t[j] == s[j + 1]);
        }
        lemma_lower_bound(t, k);
        if s[0].0 < k {
            assert forall|i: int| 0 <= i < lower_bound(s, k) implies (#[trigger] s[i]).0 < k by {
                if i > 0 {
                    assert(s[i] == t[i - 1]);
                }
            }
            assert forall|i: int| lower_bound(s, k) <= i < s.len() implies (#[trigger] s[i]).0 >= k by {
                assert(s[i] == t[i - 1]);
            }
        } else {
            assert forall|i: int| 0 <= i < s.len() implies (#[trigger] s[i]).0 >= k by {
                if i > 0 {
                    assert(s[0].0 < s[i].0);
                }
            }
        }
    }
}

/// Position where key `k` is or would go in ordered calls.
fn find_slot(calls: &Vec<(usize, ToolCallAcc)>, k: usize) -> (p: usize)
    requires
        sorted_keys(acc_views(calls@)),
    ensures
        p as int == lower_bound(acc_views(calls@), k),
        p <= calls@.len(),
{
    let ghost s = acc_views(calls@);
    proof {
        lemma_lower_bound(s, k);
    }
    let mut p: usize = 0;
    while p < calls.len() && calls[p].0 < k
        invariant
            s == acc_views(calls@),
            p <= calls@.len(),
            p <= lower_bound(s, k),
            0 <= lower_bound(s, k) <= s.len(),
            forall|i: int| 0 <= i < lower_bound(s, k) ==> (#[trigger] s[i]).0 < k,
            forall|i: int| lower_bound(s, k) <= i < s.len() ==> (#[trigger] s[i]).0 >= k,
        decreases calls.len() - p,
    {
        assert(s[p as int].0 == calls@[p as int].0);
        p = p + 1;
    }
    if p < calls.len() {
        assert(s[p as int].0 == calls@[p as int].0);
    }
    p
}

pub open spec fn assistant_view(id: MessageId, text: Seq<char>, at: i64) -> MessageView {
    MessageView { id, parent_id: None, kind: KindView::Assistant { text }, created_at: at }
}

pub open spec fn reasoning_view(id: MessageId, item: Seq<char>, text: Seq<char>, at: i64) -> MessageView {
    MessageView { id, parent_id: None, kind: KindView::Reasoning { id: item, text }, created_at: at }
}

/// One chunk applied to a step: the new step state and conversation.  New
/// messages get the id `fresh_id` and the time `now`; a reasoning item the
/// stream did not name gets the item id `fresh_item`.
pub open spec fn stepped(
    st: StepView,
    conv: Seq<MessageView>,
    c: ChunkView,
    fresh_id: MessageId,
    fresh_item: Seq<char>,
    now: i64,
) -> (StepView, Seq<MessageView>) {
    match c {
        ChunkView::TextDelta(d) => {
            let b = match st.bubble {
                Some(b) => MessageView { kind: KindView::Assistant { text: b.kind->Assistant_text + d }, ..b },
                None => assistant_view(fresh_id, d, now),
            };
            (StepView { bubble: Some(b), ..st }, conv)
        },
        ChunkView::ReasoningDelta(d) => {
            let r = match st.reasoning {
                Some(r) => MessageView {
                    kind: KindView::Reasoning { id: r.kind->Reasoning_id, text: r.kind->Reasoning_text + d },
                    ..r
                },
                None => reasoning_view(fresh_id, fresh_item, d, now),
            };
            (StepView { reasoning: Some(r), ..st }, conv)
        },
        ChunkView::ReasoningItemStart { id } => {
            let r = match st.reasoning {
                Some(r) => MessageView { kind: KindView::Reasoning { id, text: r.kind->Reasoning_text }, ..r },
                None => reasoning_view(fresh_id, id, Seq::empty(), now),
            };
            (StepView { reasoning: Some(r), ..st }, conv)
        },
        ChunkView::ToolCallStart { index, name, .. } => (
            StepView { calls: map_insert(st.calls, index, AccView { name, arguments: Seq::empty() }), ..st },
            conv,
        ),
        ChunkView::ToolCallDelta { index, data } => (StepView { calls: map_append(st.calls, index, data), ..st }, conv),
        ChunkView::ItemDone { kind: ItemKind::Message } => (
            StepView { bubble: None, ..st },
            match st.bubble {
                Some(b) => if b.kind->Assistant_text.len() > 0 {
                    hung(conv, b)
                } else {
                    conv
                },
                None => conv,
            },
        ),
        ChunkView::ItemDone { kind: ItemKind::FunctionCall } => if st.calls.len() > 0 {
            (StepView { calls: st.calls.drop_first(), done: st.done.push(st.calls[0]), ..st }, conv)
        } else {
            (st, conv)
        },
        ChunkView::ItemDone { kind: ItemKind::Reasoning } => (
            StepView { reasoning: None, ..st },
            match st.reasoning {
                Some(r) => hung(conv, r),
                None => conv,
            },
        ),
        ChunkView::Usage(_) => (st, conv),
        ChunkView::Done => (StepView { finished: true, ..st }, conv),
    }
}

proof fn lemma_sorted_insert(s: Seq<(usize, AccView)>, k: usize, v: AccView)
    requires
        sorted_keys(s),
    ensures
        sorted_keys(map_insert(s, k, v)),
{
    lemma_lower_bound(s, k);
    let p = lower_bound(s, k);
    let t = map_insert(s, k, v);
    if p < s.len() && s[p].0 == k {
        assert forall|i: int, j: int| 0 <= i < j < t.len() implies (#[trigger] t[i]).0 < (#[trigger] t[j]).0 by {
            assert(t[i].0 == s[i].0);
            assert(t[j].0 == s[j].0);
        }
    } else {
        assert forall|i: int, j: int| 0 <= i < j < t.len() implies (#[trigger] t[i]).0 < (#[trigger] t[j]).0 by {
            if i < p {
                assert(t[i] == s[i]);
            } else if i > p {
                assert(t[i] == s[i - 1]);
            }
            if j < p {
                assert(t[j] == s[j]);
            } else if j > p {
                assert(t[j] == s[j - 1]);
            }
            if i < p && j > p && j - 1 >= p {
                assert(s[j - 1].0 >= k);
            }
            if i == p && j > p {
                assert(s[j - 1].0 >= k);
                assert(s[j - 1].0 != k || p < s.len());
            }
        }
    }
}

impl StepState {
    /// Applies one streamed chunk; returns what to report for it (a text
    /// or reasoning delta).
    pub fn apply(
        &mut self,
        conversation: &mut Vec<Message>,
        chunk: ModelChunk,
        fresh_id: MessageId,
        fresh_item: String,
        now: i64,
    ) -> (ev: Option<StepEvent>)
        requires
            old(self).wf(),
        ensures
            final(self).wf(),
            (final(self).view(), views(final(conversation)@)) == stepped(
                old(self).view(),
                views(old(conversation)@),
                chunk@,
                fresh_id,
                fresh_item@,
                now,
            ),
            match chunk@ {
                ChunkView::TextDelta(d) => ev matches Some(StepEvent::MessageDelta { message_id, delta })
                    && message_id == final(self).view().bubble->0.id && delta@ == d,
                ChunkView::ReasoningDelta(d) => ev matches Some(StepEvent::ReasoningDelta { delta }) && delta@ == d,
                ChunkView::ItemDone { kind: ItemKind::Message } => match old(self).view().bubble {
                    Some(b) => if b.kind->Assistant_text.len() > 0 {
                        ev matches Some(StepEvent::MessageCompleted { message_id }) && message_id == b.id
                    } else {
                        ev is None
                    },
                    None => ev is None,
                },
                _ => ev is None,
            },
    {
        let ghost st = self.view();
        let ghost cv = views(conversation@);
        match chunk {
            ModelChunk::TextDelta(d) => {
                let b = match &self.bubble {
                    Some(b) => match &b.kind {
                        MessageKind::Assistant { text } => Message {
                            id: b.id,
                            parent_id: b.parent_id,
                            kind: MessageKind::Assistant { text: crate::text::concat2(text.as_str(), d.as_str()) },
                            created_at: b.created_at,
                        },
                        _ => b.copy(),
                    },
                    None => Message::assistant(fresh_id, d.as_str(), now),
                };
                let id = b.id;
                self.bubble = Some(b);
                proof {
                    assert(self.view().calls == st.calls);
                }
                Some(StepEvent::MessageDelta { message_id: id, delta: d })
            },
            ModelChunk::ReasoningDelta(d) => {
                let r = match &self.reasoning {
                    Some(r) => match &r.kind {
                        MessageKind::Reasoning { id, text } => Message {
                            id: r.id,
                            parent_id: r.parent_id,
                            kind: MessageKind::Reasoning {
                                id: owned(id.as_str()),
                                text: crate::text::concat2(text.as_str(), d.as_str()),
                            },
                            created_at: r.created_at,
                        },
                        _ => r.copy(),
                    },
                    None => Message {
                        id: fresh_id,
                        parent_id: None,
                        kind: MessageKind::Reasoning { id: fresh_item, text: owned(d.as_str()) },
                        created_at: now,
                    },
                };
                self.reasoning = Some(r);
                Some(StepEvent::ReasoningDelta { delta: d })
            },
            ModelChunk::ReasoningItemStart { id } => {
                let r = match &self.reasoning {
                    Some(r) => match &r.kind {
                        MessageKind::Reasoning { text, .. } => Message {
                            id: r.id,
                            parent_id: r.parent_id,
                            kind: MessageKind::Reasoning { id, text: owned(text.as_str()) },
                            created_at: r.created_at,
                        },
                        _ => r.copy(),
                    },
                    None => Message {
                        id: fresh_id,
                        parent_id: None,
                        kind: MessageKind::Reasoning { id, text: String::new() },
                        created_at: now,
                    },
                };
                self.reasoning = Some(r);
                None
            },
            ModelChunk::ToolCallStart { index, call_id: _, name } => {
                let p = find_slot(&self.calls, index);
                let ghost before = self.calls@;
                let acc = ToolCallAcc { name, arguments: String::new() };
                if p < self.calls.len() && self.calls[p].0 == index {
                    self.calls.set(p, (index, acc));
                    proof {
                        assert(acc_views(self.calls@) =~= acc_views(before).update(p as int, (index, acc@)));
                    }
                } else {
                    self.calls.insert(p, (index, acc));
                    proof {
                        assert(acc_views(self.calls@) =~= acc_views(before).insert(p as int, (index, acc@)));
                    }
                }
                proof {
                    assert(acc@.arguments =~= Seq::<char>::empty());
                    lemma_sorted_insert(st.calls, index, acc@);
                }
                None
            },
            ModelChunk::ToolCallDelta { index, data } => {
                let p = find_slot(&self.calls, index);
                if p < self.calls.len() && self.calls[p].0 == index {
                    let ghost before = self.calls@;
                    let (k, acc) = self.calls.remove(p);
                    let mut args = acc.arguments;
                    args.append(data.as_str());
                    let acc2 = ToolCallAcc { name: acc.name, arguments: args };
                    self.calls.insert(p, (k, acc2));
                    proof {
                        assert(self.calls@ =~= before.update(p as int, (k, acc2)));
                        assert(acc_views(self.calls@) =~= acc_views(before).update(p as int, (k, acc2@)));
                        let t = acc_views(self.calls@);
                        assert forall|i: int, j: int| 0 <= i < j < t.len() implies (#[trigger] t[i]).0 < (#[trigger] t[j]).0 by {
                            assert(t[i].0 == st.calls[i].0);
                            assert(t[j].0 == st.calls[j].0);
                        }
                    }
                }
                None
            },
            ModelChunk::ItemDone { kind: ItemKind::Message } => {
                match self.bubble.take() {
                    Some(b) => {
                        let keep = match &b.kind {
                            MessageKind::Assistant { text } => text.unicode_len() > 0,
                            _ => false,
                        };
                        if keep {
                            let id = b.id;
                            append_to_path(conversation, b);
                            proof {
                                assert(views(conversation@) =~= hung(cv, b@));
                            }
                            Some(StepEvent::MessageCompleted { message_id: id })
                        } else {
                            None
                        }
                    },
                    None => None,
                }
            },
            ModelChunk::ItemDone { kind: ItemKind::FunctionCall } => {
                if self.calls.len() > 0 {
                    let ghost before = self.calls@;
                    let first = self.calls.remove(0);
                    let ghost before_done = self.done@;
                    self.done.push(first);
                    proof {
                        assert(acc_views(self.calls@) =~= acc_views(before).drop_first());
                        assert(acc_views(self.done@) =~= acc_views(before_done).push(acc_views(before)[0]));
                        let t = acc_views(self.calls@);
                        assert forall|i: int, j: int| 0 <= i < j < t.len() implies (#[trigger] t[i]).0 < (#[trigger] t[j]).0 by {
                            assert(t[i] == st.calls[i + 1]);
                            assert(t[j] == st.calls[j + 1]);
                        }
                    }
                }
                None
            },
            ModelChunk::ItemDone { kind: ItemKind::Reasoning } => {
                match self.reasoning.take() {
                    Some(r) => {
                        append_to_path(conversation, r);
                        proof {
                            assert(views(conversation@) =~= hung(cv, r@));
                        }
                    },
                    None => {},
                }
                None
            },
            ModelChunk::Usage(_) => None,
            ModelChunk::Done => {
                self.finished = true;
                None
            },
        }
    }
}

/// The messages of a turn: those of the conversation that were not there
/// when the turn began.
pub fn new_messages(conversation: Vec<Message>, preexisting: &Vec<MessageId>) -> (r: Vec<Message>)
    ensures
        views(r@) == turn_messages(views(conversation@), preexisting@),
{
    let ghost all = views(conversation@);
    let ghost pred = |m: MessageView| !preexisting@.contains(m.id);
    let mut conversation = conversation;
    let mut out: Vec<Message> = Vec::new();
    let mut i: usize = 0;
    let n = conversation.len();
    proof {
        reveal(Seq::filter);
        assert(all.take(0) =~= Seq::<MessageView>::empty());
        assert(views(out@) =~= all.take(0).filter(pred));
    }
    while i < n
        invariant
            n == conversation@.len(),
            all == views(conversation@),
            i <= n,
            pred == (|m: MessageView| !preexisting@.contains(m.id)),
            views(out@) == all.take(i as int).filter(pred),
        decreases n - i,
    {
        let id = conversation[i].id;
        let mut seen = false;
        let mut j: usize = 0;
        while j < preexisting.len()
            invariant
                j <= preexisting@.len(),
                seen == exists|k: int| 0 <= k < j && preexisting@[k] == id,
            decreases preexisting.len() - j,
        {
            if preexisting[j] == id {
                seen = true;
            }
            j = j + 1;
        }
        proof {
            assert(all.take(i + 1) =~= all.take(i as int).push(all[i as int]));
            all.take(i as int).lemma_filter_push(all[i as int], pred);
            assert(all[i as int].id == id);
            assert(seen == preexisting@.contains(id));
        }
        if !seen {
            let ghost before = views(out@);
            out.push(conversation[i].copy());
            proof {
                assert(views(out@) =~= before.push(all[i as int]));
            }
        }
        i = i + 1;
    }
    proof {
        assert(all.take(n as int) =~= all);
    }
    out
}

/// The messages of a conversation whose ids were not among `preexisting`,
/// in conversation order.
pub open spec fn turn_messages(conversation: Seq<MessageView>, preexisting: Seq<MessageId>) -> Seq<
    MessageView,
> {
    conversation.filter(|m: MessageView| !preexisting.contains(m.id))
}

/// What `new_messages` credits to a turn never carries an id that the
/// conversation held when the turn began, and every message of the
/// conversation whose id is new is credited.
pub proof fn lemma_new_messages_fresh(conversation: Seq<MessageView>, preexisting: Seq<MessageId>)
    ensures
        forall|j: int|
            0 <= j < turn_messages(conversation, preexisting).len() ==> !preexisting.contains(
                (#[trigger] turn_messages(conversation, preexisting)[j]).id,
            ),
        forall|i: int|
            0 <= i < conversation.len() && !preexisting.contains(conversation[i].id)
                ==> turn_messages(conversation, preexisting).contains(#[trigger] conversation[i]),
{
    let pred = |m: MessageView| !preexisting.contains(m.id);
    assert forall|j: int| 0 <= j < conversation.filter(pred).len() implies pred(
        conversation.filter(pred)[j],
    ) by {
        conversation.lemma_filter_pred(pred, j);
    }
    assert forall|i: int| 0 <= i < conversation.len() && pred(conversation[i]) implies conversation.filter(
        pred,
    ).contains(conversation[i]) by {
        conversation.lemma_filter_contains(pred, i);
    }
}

/// Why a turn failed: the model failed, or something inside the loop did.
#[derive(Debug)]
pub enum LoopError {
    Model(String),
    Internal(String),
}

pub open spec fn loop_error_text(e: LoopError) -> Seq<char> {
    match e {
        LoopError::Model(m) => "模型错误："@ + m@,
        LoopError::Internal(m) => "内部错误："@ + m@,
    }
}

impl LoopError {
    /// The error's message.
    pub fn describe(&self) -> (r: String)
        ensures
            r@ == loop_error_text(*self),
    {
        match self {
            LoopError::Model(m) => crate::text::concat2("模型错误：", m.as_str()),
            LoopError::Internal(m) => crate::text::concat2("内部错误：", m.as_str()),
        }
    }
}

// ---------- planning a streamed tool call ----------

/// What `serde_json` makes of a text read as JSON and written back: the
/// compact text of the value, or nothing when the text is no JSON.
pub uninterp spec fn json_normal_form(text: Seq<char>) -> Option<Seq<char>>;

/// `serde_json::from_str::<Value>` and, when it reads, `Value::to_string`;
/// named, it depends on the text alone.
#[verifier::external_body]
fn normalize_json(text: &str) -> (r: Option<String>)
    ensures
        match r {
            Some(t) => json_normal_form(text@) == Some(t@),
            None => json_normal_form(text@) is None,
        },
{
    serde_json::from_str::<serde_json::Value>(text).ok().map(|v| v.to_string())
}

/// A tool call the model asked for, ready to run: the full name its wire
/// name resolves to (empty when none), its parameters as JSON text, and
/// the error it ends with when the name resolves to nothing.
pub struct PlannedCall {
    pub full: String,
    pub params: String,
    pub unknown: Option<crate::contract::ToolError>,
}

/// Plans a streamed tool call: the wire name is resolved among the bound
/// entries; arguments that are no JSON become `{}`; an unresolved name is an
/// unknown tool.
pub fn plan_call(reg: &crate::registry::Registry, wire: &str, arguments: &str) -> (r: PlannedCall)
    ensures
        match reg.resolve_wire_of(wire@) {
            Some(f) => r.full@ == f && r.unknown is None,
            None => r.full@ == Seq::<char>::empty() && (r.unknown matches Some(e) && e.code == ToolErrorCode::UnknownTool
                && e.message@ == crate::contract::unknown_tool_message(wire@) && !e.retryable),
        },
        r.params@ == match json_normal_form(arguments@) {
            Some(t) => t,
            None => "{}"@,
        },
{
    let (full, unknown) = match reg.resolve_bound_wire(wire) {
        Some(f) => (f, None),
        None => (String::new(), Some(crate::contract::ToolError::unknown_tool(wire))),
    };
    let params = match normalize_json(arguments) {
        Some(t) => t,
        None => {
            proof {
                reveal_strlit("{}");
            }
            owned("{}")
        },
    };
    PlannedCall { full, params, unknown }
}

} // verus!
