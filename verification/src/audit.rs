//! Audit: every entry-point call, model call, completed message, lifecycle
//! step and turn end is recorded, in order, to an append-only log.
use vstd::prelude::*;

use crate::agent::StopReason;
use crate::contract::{ToolError, ToolErrorCode};
use crate::dispatch::Caller;
use crate::message::MessageId;
use crate::text::{concat2, concat3, owned};

verus! {

/// One audit record.
#[derive(Debug)]
pub enum AuditRecord {
    EntryPointCall { entry: String, caller: Caller, ok: bool, error: Option<String> },
    LlmCall {
        provider: String,
        model: String,
        kind: String,
        tokens_in: Option<u64>,
        tokens_out: Option<u64>,
        duration_ms: u64,
        ok: bool,
    },
    MessageCompleted { message_id: MessageId },
    Lifecycle { phase: String },
    TurnEnded { stop_reason: String, tool_calls: usize },
}

/// The in-memory audit log.
pub struct MemoryAuditSink {
    records: Vec<AuditRecord>,
}

impl MemoryAuditSink {
    /// The records appended since the last `take`, in order.
    pub closed spec fn records(&self) -> Seq<AuditRecord> {
        self.records@
    }

    pub fn new() -> (s: MemoryAuditSink)
        ensures
            s.records() == Seq::<AuditRecord>::empty(),
    {
        MemoryAuditSink { records: Vec::new() }
    }

    /// Appends a record.
    pub fn append(&mut self, record: AuditRecord)
        ensures
            final(self).records() == old(self).records().push(record),
    {
        self.records.push(record);
    }

    /// Hands out every record, in order, and empties the log.
    pub fn take(&mut self) -> (r: Vec<AuditRecord>)
        ensures
            r@ == old(self).records(),
            final(self).records() == Seq::<AuditRecord>::empty(),
    {
        let mut out: Vec<AuditRecord> = Vec::new();
        std::mem::swap(&mut out, &mut self.records);
        out
    }
}

/// How `{:?}` names an error code.
pub open spec fn code_debug_name(c: ToolErrorCode) -> Seq<char> {
    match c {
        ToolErrorCode::UnknownTool => "UnknownTool"@,
        ToolErrorCode::InvalidParams => "InvalidParams"@,
        ToolErrorCode::HandlerError => "HandlerError"@,
        ToolErrorCode::Timeout => "Timeout"@,
        ToolErrorCode::Aborted => "Aborted"@,
        ToolErrorCode::Forbidden => "Forbidden"@,
        ToolErrorCode::ModelUnavailable => "ModelUnavailable"@,
        ToolErrorCode::Internal => "Internal"@,
    }
}

fn code_debug_text(c: ToolErrorCode) -> (r: &'static str)
    ensures
        r@ == code_debug_name(c),
{
    match c {
        ToolErrorCode::UnknownTool => "UnknownTool",
        ToolErrorCode::InvalidParams => "InvalidParams",
        ToolErrorCode::HandlerError => "HandlerError",
        ToolErrorCode::Timeout => "Timeout",
        ToolErrorCode::Aborted => "Aborted",
        ToolErrorCode::Forbidden => "Forbidden",
        ToolErrorCode::ModelUnavailable => "ModelUnavailable",
        ToolErrorCode::Internal => "Internal",
    }
}

/// The record of a finished entry-point call: ok, or the error as
/// `Code: message`.
pub fn call_record<T>(entry: &str, caller: Caller, result: &Result<T, ToolError>) -> (r: AuditRecord)
    ensures
        r matches AuditRecord::EntryPointCall { entry: e, caller: c, ok, error } && e@ == entry@ && c == caller
            && ok == result is Ok && (match result {
            Ok(_) => error is None,
            Err(err) => error matches Some(t) && t@ == code_debug_name(err.code) + ": "@ + err.message@,
        }),
{
    let error = match result {
        Ok(_) => None,
        Err(e) => Some(concat3(code_debug_text(e.code), ": ", e.message.as_str())),
    };
    AuditRecord::EntryPointCall { entry: owned(entry), caller, ok: result.is_ok(), error }
}

/// The record of a call refused because the caller may not make it.
pub fn refused_record(entry: &str, caller: Caller) -> (r: AuditRecord)
    ensures
        r matches AuditRecord::EntryPointCall { entry: e, caller: c, ok, error } && e@ == entry@ && c == caller && !ok
            && (error matches Some(t) && t@ == "forbidden"@),
{
    AuditRecord::EntryPointCall { entry: owned(entry), caller, ok: false, error: Some(owned("forbidden")) }
}

/// How `{:?}` names a stop reason.
pub open spec fn stop_debug_name(s: StopReason) -> Seq<char> {
    match s {
        StopReason::Natural => "Natural"@,
        StopReason::ToolCallLimit => "ToolCallLimit"@,
        StopReason::ConsecutiveFailures => "ConsecutiveFailures"@,
        StopReason::TurnTimeout => "TurnTimeout"@,
        StopReason::UserAborted => "UserAborted"@,
        StopReason::Failed => "Failed"@,
    }
}

/// The record of a turn's end.
pub fn turn_record(stop: StopReason, tool_calls: usize) -> (r: AuditRecord)
    ensures
        r matches AuditRecord::TurnEnded { stop_reason, tool_calls: n } && stop_reason@ == stop_debug_name(stop)
            && n == tool_calls,
{
    let name = match stop {
        StopReason::Natural => "Natural",
        StopReason::ToolCallLimit => "ToolCallLimit",
        StopReason::ConsecutiveFailures => "ConsecutiveFailures",
        StopReason::TurnTimeout => "TurnTimeout",
        StopReason::UserAborted => "UserAborted",
        StopReason::Failed => "Failed",
    };
    AuditRecord::TurnEnded { stop_reason: owned(name), tool_calls }
}

} // verus!
