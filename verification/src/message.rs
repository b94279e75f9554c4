//! Message tree: every bubble is one output item; `parent_id` links a
//! message to the one before it on its branch.
use vstd::prelude::*;
use vstd::string::*;

use crate::contract::{ToolError, ToolErrorCode};
use crate::text::{owned, trim, trim_str};

verus! {

/// Identity of a message (a UUID, as its 128-bit value).
#[derive(Debug, Clone, Copy, PartialEq, Eq, Hash, Structural)]
pub struct MessageId(pub u128);

/// Attachment bytes resolved at run time (never stored).
#[derive(Debug, Clone)]
pub struct Attachment {
    pub mime: String,
    pub data_base64: String,
}

/// Stored reference to an uploaded file: its name inside the uploads domain,
/// its MIME type and the original file name.
#[derive(Debug)]
pub struct AttachmentRef {
    pub name: String,
    pub mime: String,
    pub display_name: Option<String>,
}

/// Kinds of message.  A tool call keeps its parameters and result as JSON
/// text; the result's error is the structured tool error.
#[derive(Debug)]
pub enum MessageKind {
    User { text: String, display_text: Option<String>, attachment_refs: Vec<AttachmentRef> },
    Assistant { text: String },
    ToolCall { entry: String, params: String, result: Result<String, ToolError>, call_id: String },
    Reasoning { id: String, text: String },
    System { text: String, display_text: Option<String> },
}

#[derive(Debug)]
pub struct Message {
    pub id: MessageId,
    pub parent_id: Option<MessageId>,
    pub kind: MessageKind,
    /// Creation time, milliseconds since the Unix epoch.
    pub created_at: i64,
}

// ---------- views ----------

pub struct AttachmentRefView {
    pub name: Seq<char>,
    pub mime: Seq<char>,
    pub display_name: Option<Seq<char>>,
}

pub struct ToolErrorView {
    pub code: ToolErrorCode,
    pub message: Seq<char>,
    pub retryable: bool,
}

pub enum KindView {
    User { text: Seq<char>, display_text: Option<Seq<char>>, attachment_refs: Seq<AttachmentRefView> },
    Assistant { text: Seq<char> },
    ToolCall { entry: Seq<char>, params: Seq<char>, result: Result<Seq<char>, ToolErrorView>, call_id: Seq<char> },
    Reasoning { id: Seq<char>, text: Seq<char> },
    System { text: Seq<char>, display_text: Option<Seq<char>> },
}

pub struct MessageView {
    pub id: MessageId,
    pub parent_id: Option<MessageId>,
    pub kind: KindView,
    pub created_at: i64,
}

pub open spec fn opt_str(o: Option<String>) -> Option<Seq<char>> {
    match o {
        Some(s) => Some(s@),
        None => None,
    }
}

impl View for AttachmentRef {
    type V = AttachmentRefView;

    open spec fn view(&self) -> AttachmentRefView {
        AttachmentRefView { name: self.name@, mime: self.mime@, display_name: opt_str(self.display_name) }
    }
}

impl View for MessageKind {
    type V = KindView;

    open spec fn view(&self) -> KindView {
        match *self {
            MessageKind::User { text, display_text, attachment_refs } => KindView::User {
                text: text@,
                display_text: opt_str(display_text),
                attachment_refs: attachment_refs@.map_values(|a: AttachmentRef| a@),
            },
            MessageKind::Assistant { text } => KindView::Assistant { text: text@ },
            MessageKind::ToolCall { entry, params, result, call_id } => KindView::ToolCall {
                entry: entry@,
                params: params@,
                result: match result {
                    Ok(v) => Ok(v@),
                    Err(e) => Err(ToolErrorView { code: e.code, message: e.message@, retryable: e.retryable }),
                },
                call_id: call_id@,
            },
            MessageKind::Reasoning { id, text } => KindView::Reasoning { id: id@, text: text@ },
            MessageKind::System { text, display_text } => KindView::System {
                text: text@,
                display_text: opt_str(display_text),
            },
        }
    }
}

impl View for Message {
    type V = MessageView;

    open spec fn view(&self) -> MessageView {
        MessageView { id: self.id, parent_id: self.parent_id, kind: self.kind@, created_at: self.created_at }
    }
}

pub fn copy_opt_string(o: &Option<String>) -> (r: Option<String>)
    ensures
        opt_str(r) == opt_str(*o),
{
    match o {
        Some(s) => Some(owned(s.as_str())),
        None => None,
    }
}

impl AttachmentRef {
    pub fn copy(&self) -> (r: AttachmentRef)
        ensures
            r@ == self@,
    {
        AttachmentRef {
            name: owned(self.name.as_str()),
            mime: owned(self.mime.as_str()),
            display_name: copy_opt_string(&self.display_name),
        }
    }
}

pub(crate) fn copy_refs(v: &Vec<AttachmentRef>) -> (r: Vec<AttachmentRef>)
    ensures
        r@.map_values(|a: AttachmentRef| a@) == v@.map_values(|a: AttachmentRef| a@),
{
    let mut out: Vec<AttachmentRef> = Vec::new();
    let mut i: usize = 0;
    while i < v.len()
        invariant
            i <= v@.len(),
            out@.map_values(|a: AttachmentRef| a@) == v@.subrange(0, i as int).map_values(|a: AttachmentRef| a@),
        decreases v.len() - i,
    {
        let a = v[i].copy();
        let ghost before = out@;
        out.push(a);
        proof {
            assert(out@.map_values(|a: AttachmentRef| a@) =~= before.map_values(|a: AttachmentRef| a@).push(a@));
            assert(v@.subrange(0, i + 1).map_values(|a: AttachmentRef| a@) =~= v@.subrange(0, i as int).map_values(
                |a: AttachmentRef| a@,
            ).push(v@[i as int]@));
        }
        i = i + 1;
    }
    proof {
        assert(v@.subrange(0, v@.len() as int) =~= v@);
    }
    out
}

impl MessageKind {
    pub fn copy(&self) -> (r: MessageKind)
        ensures
            r@ == self@,
    {
        match self {
            MessageKind::User { text, display_text, attachment_refs } => MessageKind::User {
                text: owned(text.as_str()),
                display_text: copy_opt_string(display_text),
                attachment_refs: copy_refs(attachment_refs),
            },
            MessageKind::Assistant { text } => MessageKind::Assistant { text: owned(text.as_str()) },
            MessageKind::ToolCall { entry, params, result, call_id } => MessageKind::ToolCall {
                entry: owned(entry.as_str()),
                params: owned(params.as_str()),
                result: match result {
                    Ok(v) => Ok(owned(v.as_str())),
                    Err(e) => Err(ToolError { code: e.code, message: owned(e.message.as_str()), retryable: e.retryable }),
                },
                call_id: owned(call_id.as_str()),
            },
            MessageKind::Reasoning { id, text } => MessageKind::Reasoning {
                id: owned(id.as_str()),
                text: owned(text.as_str()),
            },
            MessageKind::System { text, display_text } => MessageKind::System {
                text: owned(text.as_str()),
                display_text: copy_opt_string(display_text),
            },
        }
    }
}

impl Message {
    /// A copy with the same view (ids, links, contents and time).
    pub fn copy(&self) -> (r: Message)
        ensures
            r@ == self@,
    {
        Message { id: self.id, parent_id: self.parent_id, kind: self.kind.copy(), created_at: self.created_at }
    }

    pub fn user(id: MessageId, text: &str, created_at: i64) -> (m: Message)
        ensures
            m@.id == id,
            m@.parent_id.is_none(),
            m@.kind == (KindView::User { text: text@, display_text: None, attachment_refs: Seq::empty() }),
            m@.created_at == created_at,
    {
        let refs: Vec<AttachmentRef> = Vec::new();
        assert(refs@.map_values(|a: AttachmentRef| a@) =~= Seq::<AttachmentRefView>::empty());
        let m = Message {
            id,
            parent_id: None,
            kind: MessageKind::User { text: owned(text), display_text: None, attachment_refs: refs },
            created_at,
        };
        proof {
            assert(m@.kind == (KindView::User { text: text@, display_text: None, attachment_refs: Seq::empty() }));
        }
        m
    }

    pub fn assistant(id: MessageId, text: &str, created_at: i64) -> (m: Message)
        ensures
            m@.id == id,
            m@.parent_id.is_none(),
            m@.kind == (KindView::Assistant { text: text@ }),
            m@.created_at == created_at,
    {
        Message { id, parent_id: None, kind: MessageKind::Assistant { text: owned(text) }, created_at }
    }

    pub fn system_with_display(id: MessageId, text: &str, display_text: Option<&str>, created_at: i64) -> (m: Message)
        ensures
            m@.id == id,
            m@.parent_id.is_none(),
            m@.kind == (KindView::System {
                text: text@,
                display_text: match display_text {
                    Some(d) => Some(d@),
                    None => None,
                },
            }),
            m@.created_at == created_at,
    {
        let d = match display_text {
            Some(d) => Some(owned(d)),
            None => None,
        };
        Message { id, parent_id: None, kind: MessageKind::System { text: owned(text), display_text: d }, created_at }
    }

    pub fn system(id: MessageId, text: &str, created_at: i64) -> (m: Message)
        ensures
            m@.id == id,
            m@.parent_id.is_none(),
            m@.kind == (KindView::System { text: text@, display_text: None }),
            m@.created_at == created_at,
    {
        Message::system_with_display(id, text, None, created_at)
    }

    pub fn user_with_display(id: MessageId, text: &str, display_text: Option<&str>, created_at: i64) -> (m: Message)
        ensures
            m@.id == id,
            m@.parent_id.is_none(),
            m@.kind == (KindView::User {
                text: text@,
                display_text: match display_text {
                    Some(d) => Some(d@),
                    None => None,
                },
                attachment_refs: Seq::empty(),
            }),
            m@.created_at == created_at,
    {
        let refs: Vec<AttachmentRef> = Vec::new();
        assert(refs@.map_values(|a: AttachmentRef| a@) =~= Seq::<AttachmentRefView>::empty());
        Message::user_with_attachments(id, text, display_text, refs, created_at)
    }

    /// A user message that carries references to uploaded images.
    pub fn user_with_attachments(
        id: MessageId,
        text: &str,
        display_text: Option<&str>,
        attachment_refs: Vec<AttachmentRef>,
        created_at: i64,
    ) -> (m: Message)
        ensures
            m@.id == id,
            m@.parent_id.is_none(),
            m@.kind == (KindView::User {
                text: text@,
                display_text: match display_text {
                    Some(d) => Some(d@),
                    None => None,
                },
                attachment_refs: attachment_refs@.map_values(|a: AttachmentRef| a@),
            }),
            m@.created_at == created_at,
    {
        let d = match display_text {
            Some(d) => Some(owned(d)),
            None => None,
        };
        Message {
            id,
            parent_id: None,
            kind: MessageKind::User { text: owned(text), display_text: d, attachment_refs },
            created_at,
        }
    }

    /// A tool call without a call id (one the user started).
    pub fn tool_call(id: MessageId, entry: &str, params: String, result: Result<String, ToolError>, created_at: i64) -> (m: Message)
        ensures
            m@.id == id,
            m@.parent_id.is_none(),
            m@.kind == (KindView::ToolCall {
                entry: entry@,
                params: params@,
                result: match result {
                    Ok(v) => Ok(v@),
                    Err(e) => Err(ToolErrorView { code: e.code, message: e.message@, retryable: e.retryable }),
                },
                call_id: Seq::empty(),
            }),
            m@.created_at == created_at,
    {
        Message::tool_call_with_id(id, entry, params, result, String::new(), created_at)
    }

    /// A tool call with the model's call id.
    pub fn tool_call_with_id(
        id: MessageId,
        entry: &str,
        params: String,
        result: Result<String, ToolError>,
        call_id: String,
        created_at: i64,
    ) -> (m: Message)
        ensures
            m@.id == id,
            m@.parent_id.is_none(),
            m@.kind == (KindView::ToolCall {
                entry: entry@,
                params: params@,
                result: match result {
                    Ok(v) => Ok(v@),
                    Err(e) => Err(ToolErrorView { code: e.code, message: e.message@, retryable: e.retryable }),
                },
                call_id: call_id@,
            }),
            m@.created_at == created_at,
    {
        Message { id, parent_id: None, kind: MessageKind::ToolCall { entry: owned(entry), params, result, call_id }, created_at }
    }
}

/// Text a person sees: the display text when it is not blank, else the text;
/// only user and system messages have one.
pub open spec fn visible_text_of(m: MessageView) -> Option<Seq<char>> {
    match m.kind {
        KindView::User { text, display_text, .. } => match display_text {
            Some(d) => if trim(d).len() > 0 {
                Some(d)
            } else {
                Some(text)
            },
            None => Some(text),
        },
        KindView::System { text, display_text } => match display_text {
            Some(d) => if trim(d).len() > 0 {
                Some(d)
            } else {
                Some(text)
            },
            None => Some(text),
        },
        _ => None,
    }
}

/// Entry name of the session switch tool (withdrawn: sessions change only
/// at the user's request, so its calls are not kept in the tree).
pub const SWITCH_ENTRY: &'static str = "session::switch";

/// A call of the session switch tool.
pub open spec fn is_switch_call(m: MessageView) -> bool {
    m.kind matches KindView::ToolCall { entry, .. } && entry == "session::switch"@
}

impl Message {
    pub fn is_switch_tool_call(&self) -> (r: bool)
        ensures
            r == is_switch_call(self@),
    {
        proof {
            reveal_strlit("session::switch");
        }
        match &self.kind {
            MessageKind::ToolCall { entry, .. } => crate::text::str_eq(entry.as_str(), SWITCH_ENTRY),
            _ => false,
        }
    }
}

pub fn visible_text(msg: &Message) -> (r: Option<&str>)
    ensures
        match r {
            Some(s) => visible_text_of(msg@) == Some(s@),
            None => visible_text_of(msg@) is None,
        },
{
    let (text, display) = match &msg.kind {
        MessageKind::User { text, display_text, .. } => (text, display_text),
        MessageKind::System { text, display_text } => (text, display_text),
        _ => return None,
    };
    match display {
        Some(d) => {
            if trim_str(d.as_str()).unicode_len() > 0 {
                Some(d.as_str())
            } else {
                Some(text.as_str())
            }
        },
        None => Some(text.as_str()),
    }
}

/// Hangs a message at the end of a chain: its parent becomes the last
/// message's id.
pub fn append_to_path(messages: &mut Vec<Message>, msg: Message)
    ensures
        final(messages)@.len() == old(messages)@.len() + 1,
        forall|i: int| 0 <= i < old(messages)@.len() ==> final(messages)@[i] == old(messages)@[i],
        final(messages)@.last()@ == (MessageView {
            parent_id: if old(messages)@.len() > 0 {
                Some(old(messages)@.last().id)
            } else {
                None
            },
            ..msg@
        }),
{
    let mut msg = msg;
    msg.parent_id = if messages.len() > 0 {
        Some(messages[messages.len() - 1].id)
    } else {
        None
    };
    messages.push(msg);
}

} // verus!
