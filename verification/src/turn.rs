//! The agent loop of one turn as a state machine.  The caller runs the
//! model and the tools and reports what happened as events; `turn_next`
//! decides what comes next: ask the model (with the forced tool on the first
//! request only), run a tool call, check the turn again before the next
//! model step, or finish with a stop reason.  The guard rails live here: at
//! most 25 tool calls run in a turn, three failures in a row with one error
//! code end it, and cancellation and the deadline are checked before each
//! model step and after it.
use vstd::prelude::*;

use crate::agent::{
    acc_views, guard_after, hung, json_normal_form, lemma_guard_counts_trailing_run, plan_call,
    trailing_run, AccView, LoopError, PlannedCall, StopReason, ToolCallAcc, TurnGuard, MAX_CONSECUTIVE_FAILURES,
    MAX_TOOL_CALLS,
};
use crate::contract::{unknown_tool_message, ToolError, ToolErrorCode};
use crate::message::{append_to_path, opt_str, KindView, Message, MessageId, MessageView, ToolErrorView};
use crate::registry::Registry;
use crate::store::views;
use crate::text::owned;

verus! {

/// Where a turn stands: before a model step, while the model streams,
/// while a tool call runs, or over.
#[derive(Debug, Clone, Copy, PartialEq, Eq, Structural)]
pub enum TurnPhase {
    Ready,
    Streaming,
    Calling,
    Ended,
}

/// What the caller reports.
pub enum TurnEvent {
    /// Before a model step: whether the turn was cancelled and whether its
    /// deadline has passed.
    Begin { cancelled: bool, deadline_passed: bool },
    /// The model stream failed.
    StepFailed { message: String },
    /// The model stream ended: whether the turn was cancelled meanwhile, and
    /// the tool calls the step finished, in the order they finished.
    StepDone { cancelled: bool, calls: Vec<(usize, ToolCallAcc)> },
    /// The tool call asked for ended; its message gets `message_id` and the
    /// time `now`.
    ToolDone { result: Result<String, ToolError>, message_id: MessageId, now: i64 },
}

/// What the caller is to do next.
pub enum TurnAction {
    /// Stream a model step.
    AskModel { forced_tool: Option<String>, reasoning_off: bool },
    /// Run the tool `full` with `params` (JSON text), and report it as
    /// started and ended; a call with a `refusal` is not run: it ends with
    /// that error, whatever the caller reports.
    RunTool { full: String, params: String, refusal: Option<ToolError> },
    /// The step's calls are done: report `Begin` for the next model step.
    NextStep,
    /// The turn failed.
    Fail { error: LoopError },
    /// The turn is over.
    Finish { stop: StopReason, tool_calls: usize },
}

pub struct PlanView {
    pub full: Seq<char>,
    pub params: Seq<char>,
    pub unknown: Option<ToolErrorView>,
}

pub struct TurnView {
    pub tool_calls: int,
    pub failures: int,
    pub last_code: Option<ToolErrorCode>,
    pub forced: Option<Seq<char>>,
    pub reasoning_off: bool,
    pub pending: Seq<(usize, AccView)>,
    pub current: Option<PlanView>,
    pub phase: TurnPhase,
    /// Each tool result of the turn so far: `None` a success, else its code.
    pub results: Seq<Option<ToolErrorCode>>,
}

pub enum EventView {
    Begin { cancelled: bool, deadline_passed: bool },
    StepFailed { message: Seq<char> },
    StepDone { cancelled: bool, calls: Seq<(usize, AccView)> },
    ToolDone { result: Result<Seq<char>, ToolErrorView>, message_id: MessageId, now: i64 },
}

pub enum ActionView {
    AskModel { forced_tool: Option<Seq<char>>, reasoning_off: bool },
    RunTool { full: Seq<char>, params: Seq<char>, refusal: Option<ToolErrorView> },
    NextStep,
    Fail { model: bool, message: Seq<char> },
    Finish { stop: StopReason, tool_calls: int },
}

pub open spec fn error_view(e: ToolError) -> ToolErrorView {
    ToolErrorView { code: e.code, message: e.message@, retryable: e.retryable }
}

pub open spec fn result_view(r: Result<String, ToolError>) -> Result<Seq<char>, ToolErrorView> {
    match r {
        Ok(v) => Ok(v@),
        Err(e) => Err(error_view(e)),
    }
}

impl View for TurnEvent {
    type V = EventView;

    open spec fn view(&self) -> EventView {
        match self {
            TurnEvent::Begin { cancelled, deadline_passed } => EventView::Begin {
                cancelled: *cancelled,
                deadline_passed: *deadline_passed,
            },
            TurnEvent::StepFailed { message } => EventView::StepFailed { message: message@ },
            TurnEvent::StepDone { cancelled, calls } => EventView::StepDone {
                cancelled: *cancelled,
                calls: acc_views(calls@),
            },
            TurnEvent::ToolDone { result, message_id, now } => EventView::ToolDone {
                result: result_view(*result),
                message_id: *message_id,
                now: *now,
            },
        }
    }
}

impl View for TurnAction {
    type V = ActionView;

    open spec fn view(&self) -> ActionView {
        match self {
            TurnAction::AskModel { forced_tool, reasoning_off } => ActionView::AskModel {
                forced_tool: opt_str(*forced_tool),
                reasoning_off: *reasoning_off,
            },
            TurnAction::RunTool { full, params, refusal } => ActionView::RunTool {
                full: full@,
                params: params@,
                refusal: match refusal {
                    Some(e) => Some(error_view(*e)),
                    None => None,
                },
            },
            TurnAction::NextStep => ActionView::NextStep,
            TurnAction::Fail { error } => match error {
                LoopError::Model(m) => ActionView::Fail { model: true, message: m@ },
                LoopError::Internal(m) => ActionView::Fail { model: false, message: m@ },
            },
            TurnAction::Finish { stop, tool_calls } => ActionView::Finish {
                stop: *stop,
                tool_calls: *tool_calls as int,
            },
        }
    }
}

// ---------- the transition ----------

/// The turn before anything happened.
pub open spec fn turn_start(forced: Option<Seq<char>>) -> TurnView {
    TurnView {
        tool_calls: 0,
        failures: 0,
        last_code: None,
        forced,
        reasoning_off: forced is Some,
        pending: Seq::empty(),
        current: None,
        phase: TurnPhase::Ready,
        results: Seq::empty(),
    }
}

/// A streamed call made ready to run (see `plan_call`).
pub open spec fn planned(reg: Registry, acc: AccView) -> PlanView {
    PlanView {
        full: match reg.resolve_wire_of(acc.name) {
            Some(f) => f,
            None => Seq::empty(),
        },
        params: match json_normal_form(acc.arguments) {
            Some(t) => t,
            None => "{}"@,
        },
        unknown: match reg.resolve_wire_of(acc.name) {
            Some(_) => None,
            None => Some(
                ToolErrorView {
                    code: ToolErrorCode::UnknownTool,
                    message: unknown_tool_message(acc.name),
                    retryable: false,
                },
            ),
        },
    }
}

/// The next pending call: it counts as a tool call; over the limit the turn
/// stops without running it, else it is planned and run.
pub open spec fn start_call(s: TurnView, reg: Registry) -> (TurnView, ActionView) {
    let n = s.tool_calls + 1;
    let rest = s.pending.drop_first();
    if n > MAX_TOOL_CALLS {
        (
            TurnView { tool_calls: n, pending: rest, current: None, phase: TurnPhase::Ended, ..s },
            ActionView::Finish { stop: StopReason::ToolCallLimit, tool_calls: n },
        )
    } else {
        let p = planned(reg, s.pending[0].1);
        (
            TurnView { tool_calls: n, pending: rest, current: Some(p), phase: TurnPhase::Calling, ..s },
            ActionView::RunTool { full: p.full, params: p.params, refusal: p.unknown },
        )
    }
}

pub open spec fn misstep_message() -> Seq<char> {
    "回合状态与事件不符"@
}

/// An event that does not fit the phase ends the turn as an internal error.
pub open spec fn misstep(s: TurnView, conv: Seq<MessageView>) -> (TurnView, Seq<MessageView>, ActionView) {
    (
        TurnView { current: None, phase: TurnPhase::Ended, ..s },
        conv,
        ActionView::Fail { model: false, message: misstep_message() },
    )
}

pub open spec fn finish(s: TurnView, conv: Seq<MessageView>, stop: StopReason) -> (
    TurnView,
    Seq<MessageView>,
    ActionView,
) {
    (TurnView { phase: TurnPhase::Ended, ..s }, conv, ActionView::Finish { stop, tool_calls: s.tool_calls })
}

/// The tool-call message a finished call leaves in the conversation.
pub open spec fn call_message(
    p: PlanView,
    r: Result<Seq<char>, ToolErrorView>,
    id: MessageId,
    now: i64,
) -> MessageView {
    MessageView {
        id,
        parent_id: None,
        kind: KindView::ToolCall { entry: p.full, params: p.params, result: r, call_id: Seq::empty() },
        created_at: now,
    }
}

/// One event applied to a turn: the new turn, the conversation, and what the
/// caller does next.
pub open spec fn turn_step(s: TurnView, reg: Registry, conv: Seq<MessageView>, ev: EventView) -> (
    TurnView,
    Seq<MessageView>,
    ActionView,
) {
    match ev {
        EventView::Begin { cancelled, deadline_passed } => if s.phase == TurnPhase::Ready {
            if cancelled {
                finish(s, conv, StopReason::UserAborted)
            } else if deadline_passed {
                finish(s, conv, StopReason::TurnTimeout)
            } else {
                (
                    TurnView { forced: None, phase: TurnPhase::Streaming, ..s },
                    conv,
                    ActionView::AskModel { forced_tool: s.forced, reasoning_off: s.reasoning_off },
                )
            }
        } else {
            misstep(s, conv)
        },
        EventView::StepFailed { message } => if s.phase == TurnPhase::Streaming {
            (TurnView { phase: TurnPhase::Ended, ..s }, conv, ActionView::Fail { model: true, message })
        } else {
            misstep(s, conv)
        },
        EventView::StepDone { cancelled, calls } => if s.phase == TurnPhase::Streaming {
            if cancelled {
                finish(s, conv, StopReason::UserAborted)
            } else if calls.len() == 0 {
                finish(s, conv, StopReason::Natural)
            } else {
                let (t, a) = start_call(TurnView { pending: calls, ..s }, reg);
                (t, conv, a)
            }
        } else {
            misstep(s, conv)
        },
        EventView::ToolDone { result, message_id, now } => if s.phase == TurnPhase::Calling
            && s.current is Some {
            let p = s.current->0;
            let r = match p.unknown {
                Some(e) => Err(e),
                None => result,
            };
            let code = match r {
                Ok(_) => None,
                Err(e) => Some(e.code),
            };
            let failures = match code {
                None => 0,
                Some(c) => if s.last_code == Some(c) {
                    s.failures + 1
                } else {
                    1
                },
            };
            let last_code = match code {
                None => s.last_code,
                Some(c) => Some(c),
            };
            let c2 = hung(conv, call_message(p, r, message_id, now));
            let t = TurnView { failures, last_code, current: None, results: s.results.push(code), ..s };
            if failures >= MAX_CONSECUTIVE_FAILURES {
                finish(t, c2, StopReason::ConsecutiveFailures)
            } else if t.pending.len() > 0 {
                let (u, a) = start_call(t, reg);
                (u, c2, a)
            } else {
                (TurnView { phase: TurnPhase::Ready, ..t }, c2, ActionView::NextStep)
            }
        } else {
            misstep(s, conv)
        },
    }
}

/// A turn that is not over is within both limits; a call is in hand exactly
/// while it runs; the failure count and last code are those of the results.
pub open spec fn turn_wf(s: TurnView) -> bool {
    &&& 0 <= s.tool_calls <= MAX_TOOL_CALLS + 1
    &&& s.phase != TurnPhase::Ended ==> s.tool_calls <= MAX_TOOL_CALLS && s.failures < MAX_CONSECUTIVE_FAILURES
    &&& (s.phase == TurnPhase::Calling ==> s.current is Some)
    &&& guard_after(s.results) == (s.failures as nat, s.last_code)
    &&& s.failures >= 0
}

// ---------- the state ----------

fn copy_error(e: &ToolError) -> (r: ToolError)
    ensures
        error_view(r) == error_view(*e),
{
    ToolError::new(e.code, e.message.as_str(), e.retryable)
}

/// The state of a running turn.
pub struct TurnState {
    guard: TurnGuard,
    forced: Option<String>,
    reasoning_off: bool,
    pending: Vec<(usize, ToolCallAcc)>,
    current: Option<PlannedCall>,
    phase: TurnPhase,
    results: Ghost<Seq<Option<ToolErrorCode>>>,
}

pub open spec fn plan_view(p: PlannedCall) -> PlanView {
    PlanView {
        full: p.full@,
        params: p.params@,
        unknown: match p.unknown {
            Some(e) => Some(error_view(e)),
            None => None,
        },
    }
}

impl TurnState {
    pub closed spec fn view(&self) -> TurnView {
        TurnView {
            tool_calls: self.guard.tool_calls as int,
            failures: self.guard.consecutive_failures as int,
            last_code: self.guard.last_code,
            forced: opt_str(self.forced),
            reasoning_off: self.reasoning_off,
            pending: acc_views(self.pending@),
            current: match self.current {
                Some(p) => Some(plan_view(p)),
                None => None,
            },
            phase: self.phase,
            results: self.results@,
        }
    }

    pub open spec fn wf(&self) -> bool {
        turn_wf(self.view())
    }

    /// A turn about to start; `forced` is the wire name of the tool the
    /// first model request must call.
    pub fn new(forced: Option<String>) -> (s: TurnState)
        ensures
            s.wf(),
            s.view() == turn_start(opt_str(forced)),
    {
        let reasoning_off = forced.is_some();
        let s = TurnState {
            guard: TurnGuard::new(),
            forced,
            reasoning_off,
            pending: Vec::new(),
            current: None,
            phase: TurnPhase::Ready,
            results: Ghost(Seq::empty()),
        };
        assert(s.view().pending =~= Seq::<(usize, AccView)>::empty());
        s
    }

    /// The number of tool calls counted so far.
    pub fn tool_calls(&self) -> (n: usize)
        ensures
            n == self.view().tool_calls,
    {
        self.guard.tool_calls
    }

    fn misstep(&mut self) -> (a: TurnAction)
        requires
            turn_wf(old(self).view()),
        ensures
            turn_wf(final(self).view()),
            final(self).view() == (TurnView { current: None, phase: TurnPhase::Ended, ..old(self).view() }),
            a@ == (ActionView::Fail { model: false, message: misstep_message() }),
    {
        self.current = None;
        self.phase = TurnPhase::Ended;
        TurnAction::Fail { error: LoopError::Internal(owned("回合状态与事件不符")) }
    }

    fn finish(&mut self, stop: StopReason) -> (a: TurnAction)
        requires
            turn_wf(old(self).view()),
        ensures
            turn_wf(final(self).view()),
            final(self).view() == (TurnView { phase: TurnPhase::Ended, ..old(self).view() }),
            a@ == (ActionView::Finish { stop, tool_calls: old(self).view().tool_calls }),
    {
        self.phase = TurnPhase::Ended;
        TurnAction::Finish { stop, tool_calls: self.guard.tool_calls }
    }

    /// Takes the next pending call (see `start_call`).
    fn start_next(&mut self, reg: &Registry) -> (a: TurnAction)
        requires
            turn_wf(old(self).view()),
            old(self).view().phase != TurnPhase::Ended,
            old(self).view().pending.len() > 0,
        ensures
            turn_wf(final(self).view()),
            (final(self).view(), a@) == start_call(old(self).view(), *reg),
    {
        let ghost s = self.view();
        let (_index, acc) = self.pending.remove(0);
        proof {
            assert(acc_views(self.pending@) =~= s.pending.drop_first());
        }
        let over = self.guard.begin_call();
        if over {
            self.current = None;
            self.phase = TurnPhase::Ended;
            TurnAction::Finish { stop: StopReason::ToolCallLimit, tool_calls: self.guard.tool_calls }
        } else {
            let p = plan_call(reg, acc.name.as_str(), acc.arguments.as_str());
            let refusal = match &p.unknown {
                Some(e) => Some(copy_error(e)),
                None => None,
            };
            let a = TurnAction::RunTool { full: owned(p.full.as_str()), params: owned(p.params.as_str()), refusal };
            proof {
                assert(s.pending[0].1 == acc@);
                assert(plan_view(p) == planned(*reg, acc@));
            }
            self.current = Some(p);
            self.phase = TurnPhase::Calling;
            a
        }
    }
}

/// Applies one event to a running turn.
pub fn turn_next(state: &mut TurnState, reg: &Registry, conversation: &mut Vec<Message>, event: TurnEvent) -> (a:
    TurnAction)
    requires
        old(state).wf(),
    ensures
        final(state).wf(),
        (final(state).view(), views(final(conversation)@), a@) == turn_step(
            old(state).view(),
            *reg,
            views(old(conversation)@),
            event@,
        ),
        a is RunTool ==> final(state).view().tool_calls <= MAX_TOOL_CALLS,
        (a matches TurnAction::Finish { stop, .. } && stop == StopReason::ToolCallLimit)
            ==> final(state).view().tool_calls == MAX_TOOL_CALLS + 1,
{
    let ghost s = state.view();
    let ghost cv = views(conversation@);
    match event {
        TurnEvent::Begin { cancelled, deadline_passed } => {
            if state.phase == TurnPhase::Ready {
                if cancelled {
                    state.finish(StopReason::UserAborted)
                } else if deadline_passed {
                    state.finish(StopReason::TurnTimeout)
                } else {
                    let forced = state.forced.take();
                    state.phase = TurnPhase::Streaming;
                    TurnAction::AskModel { forced_tool: forced, reasoning_off: state.reasoning_off }
                }
            } else {
                state.misstep()
            }
        },
        TurnEvent::StepFailed { message } => {
            if state.phase == TurnPhase::Streaming {
                state.phase = TurnPhase::Ended;
                TurnAction::Fail { error: LoopError::Model(message) }
            } else {
                state.misstep()
            }
        },
        TurnEvent::StepDone { cancelled, calls } => {
            if state.phase == TurnPhase::Streaming {
                if cancelled {
                    state.finish(StopReason::UserAborted)
                } else if calls.len() == 0 {
                    state.finish(StopReason::Natural)
                } else {
                    state.pending = calls;
                    state.start_next(reg)
                }
            } else {
                state.misstep()
            }
        },
        TurnEvent::ToolDone { result, message_id, now } => {
            if state.phase == TurnPhase::Calling && state.current.is_some() {
                let p = match state.current.take() {
                    Some(p) => p,
                    None => {
                        return state.misstep();
                    },
                };
                let ghost pv = plan_view(p);
                let r = match p.unknown {
                    Some(e) => Err(e),
                    None => result,
                };
                let code = match &r {
                    Ok(_) => None,
                    Err(e) => Some(e.code),
                };
                let ghost rv = result_view(r);
                let stop = state.guard.record_result(code);
                let ghost before = state.results@;
                state.results = Ghost(before.push(code));
                proof {
                    assert(before.push(code).drop_last() =~= before);
                }
                append_to_path(conversation, Message::tool_call(message_id, p.full.as_str(), p.params, r, now));
                proof {
                    assert(views(conversation@) =~= hung(cv, call_message(pv, rv, message_id, now)));
                }
                if stop {
                    state.phase = TurnPhase::Ended;
                    TurnAction::Finish { stop: StopReason::ConsecutiveFailures, tool_calls: state.guard.tool_calls }
                } else if state.pending.len() > 0 {
                    state.phase = TurnPhase::Ready;
                    state.start_next(reg)
                } else {
                    state.phase = TurnPhase::Ready;
                    TurnAction::NextStep
                }
            } else {
                state.misstep()
            }
        },
    }
}

// ---------- laws ----------

/// A run of events from a turn: the turn, the conversation, and the actions
/// in order.
pub open spec fn run_events(s: TurnView, reg: Registry, conv: Seq<MessageView>, evs: Seq<EventView>) -> (
    TurnView,
    Seq<MessageView>,
    Seq<ActionView>,
)
    decreases evs.len(),
{
    if evs.len() == 0 {
        (s, conv, Seq::empty())
    } else {
        let (t, c, a) = turn_step(s, reg, conv, evs[0]);
        let (u, d, rest) = run_events(t, reg, c, evs.drop_first());
        (u, d, seq![a] + rest)
    }
}

/// How many of the actions run a tool.
pub open spec fn tool_runs(acts: Seq<ActionView>) -> int
    decreases acts.len(),
{
    if acts.len() == 0 {
        0
    } else {
        (if acts[0] is RunTool {
            1int
        } else {
            0int
        }) + tool_runs(acts.drop_first())
    }
}

pub open spec fn capped(n: int) -> int {
    if n > MAX_TOOL_CALLS {
        MAX_TOOL_CALLS as int
    } else {
        n
    }
}

proof fn lemma_step_counts(s: TurnView, reg: Registry, conv: Seq<MessageView>, ev: EventView)
    ensures
        turn_step(s, reg, conv, ev).0.tool_calls >= s.tool_calls,
        turn_step(s, reg, conv, ev).2 is RunTool ==> turn_step(s, reg, conv, ev).0.tool_calls == s.tool_calls + 1
            && turn_step(s, reg, conv, ev).0.tool_calls <= MAX_TOOL_CALLS,
{
}

/// From any turn, the actions of any run of events run at most as many
/// tools as the limit leaves.
pub proof fn lemma_tool_runs_bounded(s: TurnView, reg: Registry, conv: Seq<MessageView>, evs: Seq<EventView>)
    ensures
        tool_runs(run_events(s, reg, conv, evs).2) + capped(s.tool_calls) <= capped(
            run_events(s, reg, conv, evs).0.tool_calls,
        ),
        run_events(s, reg, conv, evs).0.tool_calls >= s.tool_calls,
    decreases evs.len(),
{
    if evs.len() > 0 {
        let (t, c, a) = turn_step(s, reg, conv, evs[0]);
        lemma_step_counts(s, reg, conv, evs[0]);
        lemma_tool_runs_bounded(t, reg, c, evs.drop_first());
        let acts = run_events(s, reg, conv, evs).2;
        assert(acts.drop_first() =~= run_events(t, reg, c, evs.drop_first()).2);
        assert(acts[0] == a);
    }
}

/// Whatever events a turn sees, it runs at most 25 tools.
pub proof fn lemma_turn_runs_at_most_limit(
    forced: Option<Seq<char>>,
    reg: Registry,
    conv: Seq<MessageView>,
    evs: Seq<EventView>,
)
    ensures
        tool_runs(run_events(turn_start(forced), reg, conv, evs).2) <= MAX_TOOL_CALLS,
{
    lemma_tool_runs_bounded(turn_start(forced), reg, conv, evs);
}

/// The results end with three failures with one code.
pub open spec fn ends_with_three_failures(r: Seq<Option<ToolErrorCode>>) -> bool {
    &&& r.len() >= 3
    &&& r.last() is Some
    &&& r[r.len() - 2] == r.last()
    &&& r[r.len() - 3] == r.last()
}

proof fn lemma_run_of_three(r: Seq<Option<ToolErrorCode>>)
    ensures
        trailing_run(r) >= 3 <==> ends_with_three_failures(r),
{
    if r.len() > 0 && r.last() is Some {
        let c = r.last()->0;
        let b = r.drop_last();
        if b.len() > 0 && b.last() == Some(c) {
            assert(trailing_run(r) == trailing_run(b) + 1);
            assert(b.last() == r[r.len() - 2]);
            let b2 = b.drop_last();
            if b2.len() > 0 && b2.last() == Some(c) {
                assert(trailing_run(b) == trailing_run(b2) + 1);
                assert(b2.last() == r[r.len() - 3]);
                assert(trailing_run(b2) >= 1);
            } else {
                assert(trailing_run(b) == 1);
                if b2.len() > 0 {
                    assert(b2.last() == r[r.len() - 3]);
                }
            }
        } else {
            assert(trailing_run(r) == 1);
            if b.len() > 0 {
                assert(b.last() == r[r.len() - 2]);
            }
        }
    } else if r.len() > 0 {
        assert(trailing_run(r) == 0);
    }
}

/// Each step keeps a turn well formed.
pub proof fn lemma_step_keeps_wf(s: TurnView, reg: Registry, conv: Seq<MessageView>, ev: EventView)
    requires
        turn_wf(s),
    ensures
        turn_wf(turn_step(s, reg, conv, ev).0),
{
    match ev {
        EventView::ToolDone { result, message_id, now } => {
            if s.phase == TurnPhase::Calling && s.current is Some {
                let t = turn_step(s, reg, conv, ev).0;
                let p = s.current->0;
                let r = match p.unknown {
                    Some(e) => Err(e),
                    None => result,
                };
                let code = match r {
                    Ok(_) => None,
                    Err(e) => Some(e.code),
                };
                assert(s.results.push(code).drop_last() =~= s.results);
            }
        },
        _ => {},
    }
}

/// A turn ends for consecutive failures exactly when a tool result makes
/// the results end with three failures that share one code.
pub proof fn lemma_consecutive_failures(s: TurnView, reg: Registry, conv: Seq<MessageView>, ev: EventView)
    requires
        turn_wf(s),
    ensures
        (turn_step(s, reg, conv, ev).2 matches ActionView::Finish { stop, .. } && stop
            == StopReason::ConsecutiveFailures) <==> (ev is ToolDone && s.phase == TurnPhase::Calling
            && ends_with_three_failures(turn_step(s, reg, conv, ev).0.results)),
{
    lemma_guard_counts_trailing_run(s.results);
    match ev {
        EventView::ToolDone { result, message_id, now } => {
            if s.phase == TurnPhase::Calling && s.current is Some {
                let p = s.current->0;
                let r = match p.unknown {
                    Some(e) => Err(e),
                    None => result,
                };
                let code = match r {
                    Ok(_) => None,
                    Err(e) => Some(e.code),
                };
                let rs = s.results.push(code);
                assert(rs.drop_last() =~= s.results);
                lemma_guard_counts_trailing_run(rs);
                lemma_run_of_three(rs);
                assert(rs.len() == s.results.len() + 1);
            }
        },
        _ => {},
    }
}


proof fn lemma_run_len(s: TurnView, reg: Registry, conv: Seq<MessageView>, evs: Seq<EventView>)
    ensures
        run_events(s, reg, conv, evs).2.len() == evs.len(),
    decreases evs.len(),
{
    if evs.len() > 0 {
        let (t, c, a) = turn_step(s, reg, conv, evs[0]);
        lemma_run_len(t, reg, c, evs.drop_first());
    }
}

/// The `i`-th action of a run is the step taken from the turn that the first
/// `i` events left.
proof fn lemma_run_prefix(s: TurnView, reg: Registry, conv: Seq<MessageView>, evs: Seq<EventView>, i: int)
    requires
        0 <= i < evs.len(),
    ensures
        run_events(s, reg, conv, evs).2[i] == turn_step(
            run_events(s, reg, conv, evs.take(i)).0,
            reg,
            run_events(s, reg, conv, evs.take(i)).1,
            evs[i],
        ).2,
        run_events(s, reg, conv, evs.take(i + 1)).0 == turn_step(
            run_events(s, reg, conv, evs.take(i)).0,
            reg,
            run_events(s, reg, conv, evs.take(i)).1,
            evs[i],
        ).0,
    decreases i,
{
    let (t, c, a) = turn_step(s, reg, conv, evs[0]);
    lemma_run_len(t, reg, c, evs.drop_first());
    if i == 0 {
        assert(evs.take(0) =~= Seq::<EventView>::empty());
        assert(evs.take(1).drop_first() =~= Seq::<EventView>::empty());
        assert(evs.take(1)[0] == evs[0]);
        assert(run_events(t, reg, c, evs.take(1).drop_first()).0 == t);
        assert(run_events(s, reg, conv, evs.take(1)).0 == t);
    } else {
        let rest = evs.drop_first();
        lemma_run_prefix(t, reg, c, rest, i - 1);
        assert(evs.take(i).drop_first() =~= rest.take(i - 1));
        assert(evs.take(i + 1).drop_first() =~= rest.take(i));
        assert(evs.take(i)[0] == evs[0]);
        assert(evs.take(i + 1)[0] == evs[0]);
        assert(rest[i - 1] == evs[i]);
        assert(run_events(s, reg, conv, evs.take(i)).0 == run_events(t, reg, c, rest.take(i - 1)).0);
        assert(run_events(s, reg, conv, evs.take(i)).1 == run_events(t, reg, c, rest.take(i - 1)).1);
        assert(run_events(s, reg, conv, evs.take(i + 1)).0 == run_events(t, reg, c, rest.take(i)).0);
    }
}

/// Every turn a run passes through is well formed.
pub proof fn lemma_run_keeps_wf(s: TurnView, reg: Registry, conv: Seq<MessageView>, evs: Seq<EventView>)
    requires
        turn_wf(s),
    ensures
        turn_wf(run_events(s, reg, conv, evs).0),
    decreases evs.len(),
{
    if evs.len() > 0 {
        let (t, c, a) = turn_step(s, reg, conv, evs[0]);
        lemma_step_keeps_wf(s, reg, conv, evs[0]);
        lemma_run_keeps_wf(t, reg, c, evs.drop_first());
    }
}

/// Over any run of events from the start of a turn, an action ends the turn
/// for consecutive failures exactly when its event is a tool result that
/// makes the turn's results end with three failures sharing one code.
pub proof fn lemma_run_consecutive_failures(
    forced: Option<Seq<char>>,
    reg: Registry,
    conv: Seq<MessageView>,
    evs: Seq<EventView>,
    i: int,
)
    requires
        0 <= i < evs.len(),
    ensures
        (run_events(turn_start(forced), reg, conv, evs).2[i] matches ActionView::Finish { stop, .. } && stop
            == StopReason::ConsecutiveFailures) <==> (evs[i] is ToolDone && run_events(
            turn_start(forced),
            reg,
            conv,
            evs.take(i),
        ).0.phase == TurnPhase::Calling && ends_with_three_failures(
            run_events(turn_start(forced), reg, conv, evs.take(i + 1)).0.results,
        )),
{
    let s = turn_start(forced);
    assert(guard_after(Seq::<Option<ToolErrorCode>>::empty()) == (0nat, None::<ToolErrorCode>));
    lemma_run_prefix(s, reg, conv, evs, i);
    lemma_run_keeps_wf(s, reg, conv, evs.take(i));
    let t = run_events(s, reg, conv, evs.take(i));
    lemma_consecutive_failures(t.0, reg, t.1, evs[i]);
}

} // verus!
