//! Sessions: keys, goals, status and metadata.
use vstd::prelude::*;

use crate::message::MessageId;
use crate::text::owned;

verus! {

/// Identity of one conversation session (a UUID, as its 128-bit value).
#[derive(Debug, Clone, Copy, PartialEq, Eq, Hash, Structural)]
pub struct SessionKey(pub u128);

/// Learning goal of a session (input of the summariser).
#[derive(Debug)]
pub struct Goal {
    pub text: String,
}

#[derive(Debug, Clone, Copy, PartialEq, Eq, Structural)]
pub enum SessionStatus {
    Active,
    Archived,
}

/// Session metadata.  Times are milliseconds since the Unix epoch.
#[derive(Debug)]
pub struct SessionMeta {
    pub key: SessionKey,
    pub goal: Option<Goal>,
    /// Title shown in the session list (generated after the first turn, or
    /// set by the user); distinct from the goal.
    pub title: Option<String>,
    pub status: SessionStatus,
    pub created_at: i64,
    pub archived_at: Option<i64>,
    pub last_activity_at: i64,
    pub active_path: Option<MessageId>,
}

pub struct SessionMetaView {
    pub key: SessionKey,
    pub goal: Option<Seq<char>>,
    pub title: Option<Seq<char>>,
    pub status: SessionStatus,
    pub created_at: i64,
    pub archived_at: Option<i64>,
    pub last_activity_at: i64,
    pub active_path: Option<MessageId>,
}

impl View for SessionMeta {
    type V = SessionMetaView;

    open spec fn view(&self) -> SessionMetaView {
        SessionMetaView {
            key: self.key,
            goal: match self.goal {
                Some(g) => Some(g.text@),
                None => None,
            },
            title: crate::message::opt_str(self.title),
            status: self.status,
            created_at: self.created_at,
            archived_at: self.archived_at,
            last_activity_at: self.last_activity_at,
            active_path: self.active_path,
        }
    }
}

impl Goal {
    pub fn copy(&self) -> (r: Goal)
        ensures
            r.text@ == self.text@,
    {
        Goal { text: owned(self.text.as_str()) }
    }
}

impl SessionMeta {
    /// Metadata of a new, active, empty session created at `now`.
    pub fn new(key: SessionKey, now: i64) -> (m: SessionMeta)
        ensures
            m@ == (SessionMetaView {
                key,
                goal: None,
                title: None,
                status: SessionStatus::Active,
                created_at: now,
                archived_at: None,
                last_activity_at: now,
                active_path: None,
            }),
    {
        SessionMeta {
            key,
            goal: None,
            title: None,
            status: SessionStatus::Active,
            created_at: now,
            archived_at: None,
            last_activity_at: now,
            active_path: None,
        }
    }

    pub fn copy(&self) -> (r: SessionMeta)
        ensures
            r@ == self@,
    {
        SessionMeta {
            key: self.key,
            goal: match &self.goal {
                Some(g) => Some(g.copy()),
                None => None,
            },
            title: crate::message::copy_opt_string(&self.title),
            status: self.status,
            created_at: self.created_at,
            archived_at: self.archived_at,
            last_activity_at: self.last_activity_at,
            active_path: self.active_path,
        }
    }
}

} // verus!
