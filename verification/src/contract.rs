//! Entry-point contract: caller policy, tool/command/event metadata,
//! structured tool errors and the full-name / wire-name scheme.
use vstd::prelude::*;
use vstd::string::*;

use crate::services::ServiceId;
use crate::text::{concat2, concat3, owned};

verus! {

/// Who may call an entry point.
#[derive(Debug, Clone, Copy, PartialEq, Eq, Hash, Structural)]
pub enum CallerPolicy {
    UserAndModel,
    UserOnly,
}

/// When a plugin's register phase runs: at start-up or on first use.
#[derive(Debug, Clone, Copy, PartialEq, Eq, Structural)]
pub enum LoadPolicy {
    Eager,
    Lazy,
}

impl LoadPolicy {
    /// The policy a plugin gets when it declares none.
    pub fn default_policy() -> (r: LoadPolicy)
        ensures
            r == LoadPolicy::Lazy,
    {
        LoadPolicy::Lazy
    }
}

/// Declared event of a plugin.
#[derive(Debug, Clone)]
pub struct EventDef {
    pub name: String,
}

#[derive(Debug, Clone, Copy, PartialEq, Eq, Hash, Structural)]
pub enum ToolErrorCode {
    UnknownTool,
    InvalidParams,
    HandlerError,
    Timeout,
    Aborted,
    Forbidden,
    ModelUnavailable,
    Internal,
}

/// Structured error of a tool call; `retryable` tells the model whether the
/// same call with other parameters may succeed.
#[derive(Debug, Clone)]
pub struct ToolError {
    pub code: ToolErrorCode,
    pub message: String,
    pub retryable: bool,
}

pub open spec fn unknown_tool_message(name: Seq<char>) -> Seq<char> {
    "未知工具："@ + name
}

pub open spec fn timeout_message() -> Seq<char> {
    "工具执行超时，已被内核强制终止"@
}

pub open spec fn aborted_message() -> Seq<char> {
    "执行被取消"@
}

pub open spec fn forbidden_message() -> Seq<char> {
    "该入口点不允许当前调用方调用"@
}

impl ToolError {
    pub fn new(code: ToolErrorCode, message: &str, retryable: bool) -> (r: ToolError)
        ensures
            r.code == code,
            r.message@ == message@,
            r.retryable == retryable,
    {
        ToolError { code, message: owned(message), retryable }
    }

    pub fn unknown_tool(name: &str) -> (r: ToolError)
        ensures
            r.code == ToolErrorCode::UnknownTool,
            r.message@ == unknown_tool_message(name@),
            !r.retryable,
    {
        let msg = concat2("未知工具：", name);
        ToolError { code: ToolErrorCode::UnknownTool, message: msg, retryable: false }
    }

    pub fn invalid_params(message: &str) -> (r: ToolError)
        ensures
            r.code == ToolErrorCode::InvalidParams,
            r.message@ == message@,
            r.retryable,
    {
        Self::new(ToolErrorCode::InvalidParams, message, true)
    }

    pub fn handler(message: &str) -> (r: ToolError)
        ensures
            r.code == ToolErrorCode::HandlerError,
            r.message@ == message@,
            !r.retryable,
    {
        Self::new(ToolErrorCode::HandlerError, message, false)
    }

    pub fn timeout() -> (r: ToolError)
        ensures
            r.code == ToolErrorCode::Timeout,
            r.message@ == timeout_message(),
            r.retryable,
    {
        Self::new(ToolErrorCode::Timeout, "工具执行超时，已被内核强制终止", true)
    }

    pub fn aborted() -> (r: ToolError)
        ensures
            r.code == ToolErrorCode::Aborted,
            r.message@ == aborted_message(),
            !r.retryable,
    {
        Self::new(ToolErrorCode::Aborted, "执行被取消", false)
    }

    pub fn forbidden() -> (r: ToolError)
        ensures
            r.code == ToolErrorCode::Forbidden,
            r.message@ == forbidden_message(),
            !r.retryable,
    {
        Self::new(ToolErrorCode::Forbidden, "该入口点不允许当前调用方调用", false)
    }

    pub fn internal(message: &str) -> (r: ToolError)
        ensures
            r.code == ToolErrorCode::Internal,
            r.message@ == message@,
            !r.retryable,
    {
        Self::new(ToolErrorCode::Internal, message, false)
    }
}

/// Why a plugin could not be registered or loaded.
#[derive(Debug)]
pub enum PluginError {
    NamespaceTaken(String),
    CapabilityUnavailable(Vec<ServiceId>),
    ServiceTaken(ServiceId),
    ProvisionNotAllowed(Vec<ServiceId>),
    DuplicateEntry(String),
    UndeclaredEntry(String),
    WireNameCollision(String),
    Internal(String),
}

/// `namespace::short`.
pub open spec fn full_name_of(namespace: Seq<char>, short: Seq<char>) -> Seq<char> {
    namespace + "::"@ + short
}

/// Wire form of a name: each `::`, read left to right without overlap,
/// becomes `__` (`str::replace("::", "__")`).
pub open spec fn wire_of(s: Seq<char>) -> Seq<char>
    decreases s.len(),
{
    if s.len() == 0 {
        Seq::<char>::empty()
    } else if s.len() >= 2 && s[0] == ':' && s[1] == ':' {
        seq!['_', '_'] + wire_of(s.subrange(2, s.len() as int))
    } else {
        seq![s[0]] + wire_of(s.drop_first())
    }
}

pub fn full_name(namespace: &str, short: &str) -> (r: String)
    ensures
        r@ == full_name_of(namespace@, short@),
{
    concat3(namespace, "::", short)
}

pub fn full_to_wire(full: &str) -> (r: String)
    ensures
        r@ == wire_of(full@),
{
    let n = full.unicode_len();
    let mut out = String::new();
    let mut i: usize = 0;
    proof {
        reveal_strlit("__");
        assert(full@.subrange(0, n as int) =~= full@);
    }
    while i < n
        invariant
            n == full@.len(),
            i <= n,
            wire_of(full@) == out@ + wire_of(full@.subrange(i as int, n as int)),
        decreases n - i,
    {
        let ghost rest = full@.subrange(i as int, n as int);
        let c = full.get_char(i);
        if c == ':' && i + 1 < n && full.get_char(i + 1) == ':' {
            let ghost before = out@;
            out.append("__");
            proof {
                reveal_strlit("__");
                assert(rest.subrange(2, rest.len() as int) =~= full@.subrange(i + 2, n as int));
                assert(out@ =~= before + seq!['_', '_']);
            }
            i = i + 2;
            proof {
                assert(rest[0] == ':' && rest[1] == ':');
            }
        } else {
            out.append(full.substring_char(i, i + 1));
            proof {
                assert(rest.drop_first() =~= full@.subrange(i + 1, n as int));
                assert(full@.subrange(i as int, i + 1) =~= seq![rest[0]]);
            }
            i = i + 1;
        }
    }
    proof {
        assert(full@.subrange(n as int, n as int) =~= Seq::<char>::empty());
        assert(out@ + Seq::<char>::empty() =~= out@);
    }
    out
}

} // verus!

verus! {

proof fn lemma_wire_prefix_plain(a: Seq<char>, b: Seq<char>)
    requires
        crate::storage::free_of(a, ':'),
    ensures
        wire_of(a + b) == a + wire_of(b),
    decreases a.len(),
{
    if a.len() == 0 {
        assert(a + b =~= b);
        assert(a + wire_of(b) =~= wire_of(b));
    } else {
        let s = a + b;
        assert(s[0] == a[0]);
        assert(s.drop_first() =~= a.drop_first() + b);
        lemma_wire_prefix_plain(a.drop_first(), b);
        assert(seq![a[0]] + (a.drop_first() + wire_of(b)) =~= a + wire_of(b));
    }
}

/// For a namespace and a short name without `:`, the wire name of the full
/// name is the namespace, `__`, then the short name.
pub proof fn lemma_wire_of_full_name(namespace: Seq<char>, short: Seq<char>)
    requires
        crate::storage::free_of(namespace, ':'),
        crate::storage::free_of(short, ':'),
    ensures
        wire_of(full_name_of(namespace, short)) == namespace + "__"@ + short,
{
    reveal_strlit("::");
    reveal_strlit("__");
    let tail = "::"@ + short;
    assert(full_name_of(namespace, short) =~= namespace + tail);
    lemma_wire_prefix_plain(namespace, tail);
    assert(tail[0] == ':' && tail[1] == ':');
    assert(tail.subrange(2, tail.len() as int) =~= short);
    assert(short + Seq::<char>::empty() =~= short);
    lemma_wire_prefix_plain(short, Seq::<char>::empty());
    assert(wire_of(Seq::<char>::empty()) == Seq::<char>::empty());
    assert(namespace + (seq!['_', '_'] + short) =~= namespace + "__"@ + short);
}

} // verus!
