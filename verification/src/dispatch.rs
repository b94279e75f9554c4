//! Decisions of tool execution: who may call an entry point, which
//! timeout a call gets, how a deadline is extended, and how a finished
//! handler task is reported.  Running the handler stays with the caller.
use vstd::prelude::*;

use crate::contract::{forbidden_message, CallerPolicy, PluginError, ToolError, ToolErrorCode};
use crate::registry::{bound_index, lookup_failure_message, BoundEntry, EntryKind, Registry};
use crate::text::concat2;

verus! {

/// Who calls an entry point.
#[derive(Debug, Clone, Copy, PartialEq, Eq, Structural)]
pub enum Caller {
    Model,
    User,
}

pub open spec fn entry_at(reg: Registry, full: Seq<char>, kind: EntryKind, k: int) -> bool {
    bound_index(reg.bound(), full, k) && reg.bound()[k].kind == kind
}

/// The entry a tool call runs: a bound tool, which the model may call only
/// when its policy allows.
pub fn tool_for_call<'a>(reg: &'a Registry, full_name: &str, caller: Caller) -> (r: Result<&'a BoundEntry, ToolError>)
    ensures
        (forall|k: int| !entry_at(*reg, full_name@, EntryKind::Tool, k)) ==> (r matches Err(e) && e.code
            == ToolErrorCode::Internal && e.message@ == "注册失败："@ + lookup_failure_message(reg.plugins(), reg.bound(), full_name@) && !e.retryable),
        forall|k: int|
            #![trigger entry_at(*reg, full_name@, EntryKind::Tool, k)]
            entry_at(*reg, full_name@, EntryKind::Tool, k) ==> if caller == Caller::Model && reg.bound()[k].policy
                == CallerPolicy::UserOnly {
                r matches Err(e) && e.code == ToolErrorCode::Forbidden && e.message@ == forbidden_message() && !e.retryable
            } else {
                r matches Ok(e) && *e == reg.bound()[k]
            },
{
    match reg.entry(full_name, EntryKind::Tool) {
        Ok(e) => {
            proof {
                let k = choose|k: int| bound_index(reg.bound(), full_name@, k) && *e == reg.bound()[k] && e.kind
                    == EntryKind::Tool;
                assert(entry_at(*reg, full_name@, EntryKind::Tool, k));
                assert forall|q: int| #[trigger] entry_at(*reg, full_name@, EntryKind::Tool, q) implies q == k by {
                    if q < k {
                        assert(reg.bound()[q].full_name@ != full_name@);
                    } else if k < q {
                        assert(reg.bound()[k].full_name@ != full_name@);
                    }
                }
            }
            if caller == Caller::Model && e.policy == CallerPolicy::UserOnly {
                return Err(ToolError::forbidden());
            }
            Ok(e)
        },
        Err(PluginError::Internal(m)) => {
            let text = concat2("注册失败：", m.as_str());
            Err(ToolError::internal(text.as_str()))
        },
        Err(_) => Err(ToolError::internal("注册失败")),
    }
}

/// Where a user command goes: to the bound command of that name, else to
/// the tool of that name called by the user.
pub enum CommandRoute<'a> {
    Command(&'a BoundEntry),
    Tool,
}

pub fn route_command<'a>(reg: &'a Registry, full_name: &str) -> (r: CommandRoute<'a>)
    ensures
        (forall|k: int| !entry_at(*reg, full_name@, EntryKind::Command, k)) ==> r is Tool,
        forall|k: int|
            #![trigger entry_at(*reg, full_name@, EntryKind::Command, k)]
            entry_at(*reg, full_name@, EntryKind::Command, k) ==> (r matches CommandRoute::Command(e) && *e
                == reg.bound()[k]),
{
    match reg.entry(full_name, EntryKind::Command) {
        Ok(e) => {
            proof {
                let k = choose|k: int| bound_index(reg.bound(), full_name@, k) && *e == reg.bound()[k] && e.kind
                    == EntryKind::Command;
                assert(entry_at(*reg, full_name@, EntryKind::Command, k));
                assert forall|q: int| #[trigger] entry_at(*reg, full_name@, EntryKind::Command, q) implies q == k by {
                    if q < k {
                        assert(reg.bound()[q].full_name@ != full_name@);
                    } else if k < q {
                        assert(reg.bound()[k].full_name@ != full_name@);
                    }
                }
            }
            CommandRoute::Command(e)
        },
        Err(_) => CommandRoute::Tool,
    }
}

/// Timeout of a call (milliseconds): the entry's own, else the default,
/// never beyond the turn's budget.
pub open spec fn call_timeout(own: Option<u64>, default: u64, budget: u64) -> u64 {
    let t = match own {
        Some(t) => t,
        None => default,
    };
    if t < budget {
        t
    } else {
        budget
    }
}

pub fn effective_timeout(own: Option<u64>, default: u64, budget: u64) -> (t: u64)
    ensures
        t == call_timeout(own, default, budget),
        t <= budget,
{
    let t = match own {
        Some(t) => t,
        None => default,
    };
    if t < budget {
        t
    } else {
        budget
    }
}

/// The deadline of a running call (milliseconds on the caller's clock) and
/// the end of its turn, past which no extension goes.
pub struct Deadline {
    pub at: u64,
    pub turn_end: u64,
}

impl Deadline {
    /// Moves the deadline to `now + extra` unless that passes the turn's end;
    /// returns whether it moved.
    pub fn extend(&mut self, now: u64, extra: u64) -> (moved: bool)
        ensures
            moved == (now + extra <= old(self).turn_end),
            moved ==> final(self).at == now + extra,
            !moved ==> final(self).at == old(self).at,
            final(self).turn_end == old(self).turn_end,
    {
        if extra > self.turn_end || now > self.turn_end - extra {
            return false;
        }
        self.at = now + extra;
        true
    }
}

/// How a handler task ended.
pub enum TaskEnd<T> {
    Returned(Result<T, ToolError>),
    /// The task panicked or was cancelled; the text says how.
    Crashed(String),
    /// The deadline passed first.
    TimedOut,
    /// The call was cancelled and did not finish within the grace period.
    Cancelled,
}

pub open spec fn crashed_message(why: Seq<char>) -> Seq<char> {
    "handler 任务异常："@ + why
}

/// The result reported for a handler task.
pub fn task_result<T>(end: TaskEnd<T>) -> (r: Result<T, ToolError>)
    ensures
        match end {
            TaskEnd::Returned(x) => r == x,
            TaskEnd::Crashed(why) => r matches Err(e) && e.code == ToolErrorCode::Internal && e.message@
                == crashed_message(why@),
            TaskEnd::TimedOut => r matches Err(e) && e.code == ToolErrorCode::Timeout,
            TaskEnd::Cancelled => r matches Err(e) && e.code == ToolErrorCode::Aborted,
        },
{
    match end {
        TaskEnd::Returned(x) => x,
        TaskEnd::Crashed(why) => {
            let text = concat2("handler 任务异常：", why.as_str());
            Err(ToolError::internal(text.as_str()))
        },
        TaskEnd::TimedOut => Err(ToolError::timeout()),
        TaskEnd::Cancelled => Err(ToolError::aborted()),
    }
}

// ---------- parameter validation ----------

/// What validating parameters (JSON text) against an entry's parameter
/// schema (JSON text) gives: nothing when they pass; else whether the schema
/// itself was at fault, and the validator's message (its first error).
pub uninterp spec fn schema_outcome(schema: Seq<char>, params: Seq<char>) -> Option<(bool, Seq<char>)>;

/// `jsonschema::validator_for` on the schema, then `Validator::validate` on
/// the parameters (both read with `serde_json::from_str`); named, the
/// outcome depends on the two texts alone.  A schema text that is no JSON
/// counts as a bad schema, a parameter text that is no JSON as parameters
/// that fail.
#[verifier::external_body]
fn check_against_schema(schema: &str, params: &str) -> (r: Option<(bool, String)>)
    ensures
        match r {
            None => schema_outcome(schema@, params@) is None,
            Some((bad_schema, m)) => schema_outcome(schema@, params@) == Some((bad_schema, m@)),
        },
{
    let schema_value: serde_json::Value = match serde_json::from_str(schema) {
        Ok(v) => v,
        Err(e) => return Some((true, e.to_string())),
    };
    let params_value: serde_json::Value = match serde_json::from_str(params) {
        Ok(v) => v,
        Err(e) => return Some((false, e.to_string())),
    };
    match jsonschema::validator_for(&schema_value) {
        Err(e) => Some((true, e.to_string())),
        Ok(v) => v.validate(&params_value).err().map(|e| (false, e.to_string())),
    }
}

pub open spec fn bad_schema_message(m: Seq<char>) -> Seq<char> {
    "schema 无效："@ + m
}

pub open spec fn bad_params_message(m: Seq<char>) -> Seq<char> {
    "参数校验失败："@ + m
}

/// The tool error of a validation outcome: a bad schema is an internal
/// error, failing parameters are invalid (and worth retrying).
pub fn params_verdict(outcome: Option<(bool, String)>) -> (r: Result<(), ToolError>)
    ensures
        match outcome {
            None => r is Ok,
            Some((true, m)) => r matches Err(e) && e.code == ToolErrorCode::Internal && e.message@ == bad_schema_message(
                m@,
            ) && !e.retryable,
            Some((false, m)) => r matches Err(e) && e.code == ToolErrorCode::InvalidParams && e.message@
                == bad_params_message(m@) && e.retryable,
        },
{
    match outcome {
        None => Ok(()),
        Some((true, m)) => {
            let text = concat2("schema 无效：", m.as_str());
            Err(ToolError::internal(text.as_str()))
        },
        Some((false, m)) => {
            let text = concat2("参数校验失败：", m.as_str());
            Err(ToolError::invalid_params(text.as_str()))
        },
    }
}

pub open spec fn verdict_of(outcome: Option<(bool, Seq<char>)>, r: Result<(), ToolError>) -> bool {
    match outcome {
        None => r is Ok,
        Some((true, m)) => r matches Err(e) && e.code == ToolErrorCode::Internal && e.message@ == bad_schema_message(m)
            && !e.retryable,
        Some((false, m)) => r matches Err(e) && e.code == ToolErrorCode::InvalidParams && e.message@ == bad_params_message(
            m,
        ) && e.retryable,
    }
}

/// Checks parameters against an entry's schema before its handler runs.
pub fn validate(entry: &BoundEntry, params: &str) -> (r: Result<(), ToolError>)
    ensures
        verdict_of(schema_outcome(entry.params@, params@), r),
{
    let outcome = check_against_schema(entry.params.as_str(), params);
    params_verdict(outcome)
}

/// What a tool call may run: the entry `tool_for_call` gives, once its
/// parameters pass the entry's schema.
pub fn admit_call<'a>(reg: &'a Registry, full_name: &str, params: &str, caller: Caller) -> (r: Result<&'a BoundEntry, ToolError>)
    ensures
        (forall|k: int| !entry_at(*reg, full_name@, EntryKind::Tool, k)) ==> (r matches Err(e) && e.code
            == ToolErrorCode::Internal && e.message@ == "注册失败："@ + lookup_failure_message(reg.plugins(), reg.bound(), full_name@) && !e.retryable),
        forall|k: int|
            #![trigger entry_at(*reg, full_name@, EntryKind::Tool, k)]
            entry_at(*reg, full_name@, EntryKind::Tool, k) ==> if caller == Caller::Model && reg.bound()[k].policy
                == CallerPolicy::UserOnly {
                r matches Err(e) && e.code == ToolErrorCode::Forbidden && e.message@ == forbidden_message() && !e.retryable
            } else {
                match schema_outcome(reg.bound()[k].params@, params@) {
                    None => r matches Ok(e) && *e == reg.bound()[k],
                    Some(_) => r is Err && verdict_of(
                        schema_outcome(reg.bound()[k].params@, params@),
                        match r {
                            Ok(_) => Ok(()),
                            Err(e) => Err(e),
                        },
                    ),
                }
            },
{
    let entry = match tool_for_call(reg, full_name, caller) {
        Ok(e) => e,
        Err(e) => return Err(e),
    };
    match validate(entry, params) {
        Ok(()) => Ok(entry),
        Err(e) => Err(e),
    }
}

} // verus!
