//! Session guard decisions: the keyword stub guard, the fence-tolerant
//! reading of a guard reply, and when a failed model call is retried.
use vstd::prelude::*;

use crate::services::ModelError;
use crate::session::Goal;
use crate::text::{contains_seq, has_prefix, head, head_chars, owned, starts_with, str_contains, trim, trim_str};

verus! {

/// What the guard decides for a session.
#[derive(Debug)]
pub enum GuardDecision {
    Continue,
    UpdateGoal(Goal),
    StartNew(Goal),
}

/// What the guard reads: the goal, a summary and the new message text.
#[derive(Debug)]
pub struct GuardInput {
    pub goal: Option<Goal>,
    pub summary: String,
    pub new_text: Option<String>,
}

#[derive(Debug)]
pub enum GuardError {
    Model(String),
    Parse(String),
}

/// Deterministic guard: a new message naming a report or a new session
/// starts a new session (goal: its first 40 characters); otherwise continue.
pub struct StubGuard {
    start_new_keywords: Vec<String>,
}

pub open spec fn stub_keywords() -> Seq<Seq<char>> {
    seq!["报告"@, "周报"@, "新会话"@]
}

/// Whether the text contains one of the keywords.
pub open spec fn names_keyword(text: Seq<char>, keywords: Seq<Seq<char>>) -> bool {
    exists|k: int| 0 <= k < keywords.len() && contains_seq(text, #[trigger] keywords[k])
}

impl StubGuard {
    pub closed spec fn keywords(&self) -> Seq<Seq<char>> {
        self.start_new_keywords@.map_values(|s: String| s@)
    }

    pub fn new() -> (g: StubGuard)
        ensures
            g.keywords() == stub_keywords(),
    {
        let mut k: Vec<String> = Vec::new();
        k.push(owned("报告"));
        k.push(owned("周报"));
        k.push(owned("新会话"));
        let g = StubGuard { start_new_keywords: k };
        assert(g.keywords() =~= stub_keywords());
        g
    }

}

/// A guard: decides, for a session's goal, summary and new message, whether
/// the session continues, changes its goal, or gives way to a new one.
/// Implementations say what they decide; nothing is promised in general.
pub trait GuardModel {
    fn decide(&self, input: &GuardInput) -> (r: Result<GuardDecision, GuardError>);
}

impl GuardModel for StubGuard {
    /// The stub's decision for a new message.
    fn decide(&self, input: &GuardInput) -> (r: Result<GuardDecision, GuardError>)
        ensures
            (input.new_text is Some && names_keyword(input.new_text->0@, self.keywords())) ==> (r matches Ok(
                GuardDecision::StartNew(g),
            ) && g.text@ == head(input.new_text->0@, 40)),
            !(input.new_text is Some && names_keyword(input.new_text->0@, self.keywords())) ==> (r matches Ok(
                GuardDecision::Continue,
            )),
    {
        let text = match &input.new_text {
            Some(t) => t,
            None => return Ok(GuardDecision::Continue),
        };
        let mut i: usize = 0;
        while i < self.start_new_keywords.len()
            invariant
                input.new_text == Some(*text),
                i <= self.keywords().len(),
                self.keywords().len() == self.start_new_keywords@.len(),
                forall|k: int| 0 <= k < i ==> !contains_seq(text@, #[trigger] self.keywords()[k]),
            decreases self.start_new_keywords.len() - i,
        {
            assert(self.keywords()[i as int] == self.start_new_keywords@[i as int]@);
            if str_contains(text.as_str(), self.start_new_keywords[i].as_str()) {
                assert(contains_seq(text@, self.keywords()[i as int]));
                assert(names_keyword(text@, self.keywords()));
                return Ok(GuardDecision::StartNew(Goal { text: head_chars(text.as_str(), 40) }));
            }
            i = i + 1;
        }
        Ok(GuardDecision::Continue)
    }
}

// ---------- reading a guard reply ----------

/// A reply without surrounding whitespace and without a ```json (or ```)
/// fence around it.
pub open spec fn unfenced(text: Seq<char>) -> Seq<char> {
    let t = trim(text);
    let open = if has_prefix(t, "```json"@) {
        Some(t.skip(7))
    } else if has_prefix(t, "```"@) {
        Some(t.skip(3))
    } else {
        None
    };
    match open {
        Some(rest) => if rest.len() >= 3 && rest.skip(rest.len() - 3) == "```"@ {
            trim(rest.take(rest.len() - 3))
        } else {
            t
        },
        None => t,
    }
}

/// Strips a code fence from a guard reply (the JSON inside is read by the
/// caller).
pub fn strip_code_fence(text: &str) -> (r: String)
    ensures
        r@ == unfenced(text@),
{
    let t = trim_str(text);
    let n = t.unicode_len();
    proof {
        reveal_strlit("```json");
        reveal_strlit("```");
    }
    let rest: Option<&str> = if starts_with(t.as_str(), "```json") {
        Some(t.as_str().substring_char(7, n))
    } else if starts_with(t.as_str(), "```") {
        Some(t.as_str().substring_char(3, n))
    } else {
        None
    };
    match rest {
        Some(r) => {
            let m = r.unicode_len();
            if m >= 3 {
                let tail = r.substring_char(m - 3, m);
                if crate::text::str_eq(tail, "```") {
                    let inner = r.substring_char(0, m - 3);
                    proof {
                        assert(tail@ == r@.skip(m - 3));
                        assert(inner@ == r@.take(m - 3));
                    }
                    return trim_str(inner);
                }
                proof {
                    assert(tail@ =~= r@.skip(m - 3));
                }
            }
            t
        },
        None => t,
    }
}

/// What reading a text as JSON and taking the string at a top-level field
/// gives: nothing when the text is no JSON; else the field's string, or
/// nothing inside when the field is missing or holds no string.
pub uninterp spec fn json_string_at(text: Seq<char>, field: Seq<char>) -> Option<Option<Seq<char>>>;

/// `serde_json::from_str::<Value>`, then indexing by `field` and
/// `Value::as_str`; named, it depends on the two texts alone.
#[verifier::external_body]
fn json_string_field(text: &str, field: &str) -> (r: Option<Option<String>>)
    ensures
        match r {
            None => json_string_at(text@, field@) is None,
            Some(None) => json_string_at(text@, field@) == Some(None::<Seq<char>>),
            Some(Some(v)) => json_string_at(text@, field@) == Some(Some(v@)),
        },
{
    match serde_json::from_str::<serde_json::Value>(text) {
        Ok(v) => Some(v[field].as_str().map(|s| s.to_string())),
        Err(_) => None,
    }
}

/// The goal a guard reply names: its `goal` string, trimmed (empty when
/// there is none).
pub open spec fn reply_goal(t: Seq<char>) -> Seq<char> {
    match json_string_at(t, "goal"@) {
        Some(Some(g)) => trim(g),
        _ => Seq::empty(),
    }
}

/// What a guard reply (JSON, possibly fenced) decides: its `action` is
/// `continue`, `update_goal` or `start_new` (the last two with its goal);
/// anything else decides nothing.
pub open spec fn reply_decision_ok(text: Seq<char>, r: Option<GuardDecision>) -> bool {
    let t = unfenced(text);
    match json_string_at(t, "action"@) {
        Some(Some(a)) => if a == "continue"@ {
            r matches Some(GuardDecision::Continue)
        } else if a == "update_goal"@ {
            r matches Some(GuardDecision::UpdateGoal(g)) && g.text@ == reply_goal(t)
        } else if a == "start_new"@ {
            r matches Some(GuardDecision::StartNew(g)) && g.text@ == reply_goal(t)
        } else {
            r is None
        },
        _ => r is None,
    }
}

/// Reads a guard reply: surrounding whitespace and a code fence are
/// tolerated; a reply that cannot be read decides nothing (the caller then
/// continues the session).
pub fn parse_guard_decision(text: &str) -> (r: Option<GuardDecision>)
    ensures
        reply_decision_ok(text@, r),
{
    let t = strip_code_fence(text);
    let action = match json_string_field(t.as_str(), "action") {
        Some(Some(a)) => a,
        _ => return None,
    };
    let goal_text = match json_string_field(t.as_str(), "goal") {
        Some(Some(g)) => trim_str(g.as_str()),
        _ => String::new(),
    };
    proof {
        assert(goal_text@ == reply_goal(t@));
    }
    if crate::text::str_eq(action.as_str(), "continue") {
        Some(GuardDecision::Continue)
    } else if crate::text::str_eq(action.as_str(), "update_goal") {
        Some(GuardDecision::UpdateGoal(Goal { text: goal_text }))
    } else if crate::text::str_eq(action.as_str(), "start_new") {
        Some(GuardDecision::StartNew(Goal { text: goal_text }))
    } else {
        None
    }
}

// ---------- retries of a model call ----------

/// How a model call attempt failed.
pub enum CallFailure {
    Error(ModelError),
    TimedOut,
}

/// After a failed attempt (`attempt` retries done so far, at most
/// `retries`): `Some(n)` to retry as retry number `n` after waiting `n`
/// times the base delay; `None` to give up.  Systemic errors and
/// cancellation are never retried.
pub open spec fn retry_after(failure: CallFailure, attempt: nat, retries: nat) -> Option<nat> {
    match failure {
        CallFailure::Error(e) => if e.systemic() || e is Cancelled || attempt >= retries {
            None
        } else {
            Some(attempt + 1)
        },
        CallFailure::TimedOut => if attempt >= retries {
            None
        } else {
            Some(attempt + 1)
        },
    }
}

pub fn next_retry(failure: &CallFailure, attempt: usize, retries: usize) -> (r: Option<usize>)
    ensures
        match r {
            Some(n) => retry_after(*failure, attempt as nat, retries as nat) == Some(n as nat),
            None => retry_after(*failure, attempt as nat, retries as nat) is None,
        },
{
    match failure {
        CallFailure::Error(e) => {
            let cancelled = match e {
                ModelError::Cancelled => true,
                _ => false,
            };
            if e.is_systemic() || cancelled || attempt >= retries {
                None
            } else {
                Some(attempt + 1)
            }
        },
        CallFailure::TimedOut => {
            if attempt >= retries {
                None
            } else {
                Some(attempt + 1)
            }
        },
    }
}

/// Retries are bounded: from any attempt count, each retry raises it by one
/// and none is granted past `retries`, so a call is made at most
/// `retries + 1` times.
pub proof fn lemma_retries_bounded(failure: CallFailure, attempt: nat, retries: nat)
    ensures
        retry_after(failure, attempt, retries) matches Some(n) ==> n == attempt + 1 && n <= retries,
{
}

} // verus!
