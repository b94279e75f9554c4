//! Decisions of the request handler: the RPC error value, how a user
//! message with a forced tool and attachments is composed, and the one-turn
//! slot (a new turn is refused while one runs).
use vstd::prelude::*;

use crate::contract::{CallerPolicy, PluginError};
use crate::registry::{bound_index, entry_title_of, lookup_failure_message, EntryKind, Registry};
use crate::session::SessionKey;
use crate::text::{concat2, owned, trim, trim_str};

verus! {

/// Error answered to a request: a code and a message.
#[derive(Debug)]
pub struct RpcError {
    pub code: String,
    pub message: String,
}

impl RpcError {
    pub fn new(code: &str, message: &str) -> (r: RpcError)
        ensures
            r.code@ == code@,
            r.message@ == message@,
    {
        RpcError { code: owned(code), message: owned(message) }
    }
}

/// A request to make the model call a given tool.
#[derive(Debug)]
pub struct ForcedToolRequest {
    pub entry: String,
    pub hint: Option<String>,
    pub display: Option<String>,
}

/// A file attached to a user message.
#[derive(Debug)]
pub struct AttachmentInfo {
    pub path: String,
    pub name: String,
}

/// The user message a request becomes: the text the model reads, the text
/// a person sees (when it differs) and the wire name of a forced tool.
#[derive(Debug)]
pub struct ComposedMessage {
    pub text: String,
    pub display_text: Option<String>,
    pub forced_wire: Option<String>,
}

pub open spec fn opt_string_view(o: Option<String>) -> Option<Seq<char>> {
    crate::message::opt_str(o)
}

/// The trimmed hint of a forced tool (empty when none).
pub open spec fn hint_text(hint: Option<Seq<char>>) -> Seq<char> {
    match hint {
        Some(h) => trim(h),
        None => Seq::empty(),
    }
}

/// The instruction that forces a tool.
pub open spec fn forced_text(entry: Seq<char>, hint: Seq<char>) -> Seq<char> {
    if hint.len() == 0 {
        "请调用工具 "@ + entry + " 处理当前请求。"@
    } else {
        "请调用工具 "@ + entry + " 处理："@ + hint
    }
}

/// What a person sees for a forced tool: the given display text when it is
/// not blank, else the entry's title (with the hint).
pub open spec fn forced_display(display: Option<Seq<char>>, title: Option<Seq<char>>, hint: Seq<char>) -> Option<Seq<char>> {
    match display {
        Some(d) if trim(d).len() > 0 => Some(d),
        _ => match title {
            Some(t) => if hint.len() == 0 {
                Some(t)
            } else {
                Some(t + "："@ + hint)
            },
            None => None,
        },
    }
}

/// The text with one line per staged file and per attachment.
pub open spec fn with_attachments(text: Seq<char>, files: Seq<Seq<char>>, assets: Seq<(Seq<char>, Seq<char>)>) -> Seq<char>
    decreases assets.len(),
{
    if assets.len() == 0 {
        with_files(text, files)
    } else {
        let (path, name) = assets.last();
        with_attachments(text, files, assets.drop_last()) + "\n附件："@ + path + "|"@ + name
    }
}

pub open spec fn with_files(text: Seq<char>, files: Seq<Seq<char>>) -> Seq<char>
    decreases files.len(),
{
    if files.len() == 0 {
        text
    } else {
        with_files(text, files.drop_last()) + "\n暂存文件："@ + files.last()
    }
}

pub open spec fn file_views(v: Seq<String>) -> Seq<Seq<char>> {
    v.map_values(|s: String| s@)
}

pub open spec fn asset_views(v: Seq<AttachmentInfo>) -> Seq<(Seq<char>, Seq<char>)> {
    v.map_values(|a: AttachmentInfo| (a.path@, a.name@))
}

/// The bound tool of this full name, when there is one.
pub open spec fn tool_at(reg: Registry, full: Seq<char>, k: int) -> bool {
    bound_index(reg.bound(), full, k) && reg.bound()[k].kind == EntryKind::Tool
}

pub open spec fn forbidden_tool_message() -> Seq<char> {
    "该工具仅用户可调，不能被模型强制调用"@
}

fn append_lines(text: &mut String, files: &Vec<String>, assets: &Vec<AttachmentInfo>)
    ensures
        final(text)@ == with_attachments(old(text)@, file_views(files@), asset_views(assets@)),
{
    let ghost t0 = text@;
    let mut i: usize = 0;
    while i < files.len()
        invariant
            i <= files@.len(),
            text@ == with_files(t0, file_views(files@).take(i as int)),
        decreases files.len() - i,
    {
        text.append("\n暂存文件：");
        text.append(files[i].as_str());
        proof {
            assert(file_views(files@).take(i + 1).drop_last() =~= file_views(files@).take(i as int));
            assert(file_views(files@).take(i + 1).last() == files@[i as int]@);
        }
        i = i + 1;
    }
    proof {
        assert(file_views(files@).take(files@.len() as int) =~= file_views(files@));
    }
    let mut j: usize = 0;
    proof {
        assert(asset_views(assets@).take(0) =~= Seq::<(Seq<char>, Seq<char>)>::empty());
    }
    while j < assets.len()
        invariant
            j <= assets@.len(),
            text@ == with_attachments(t0, file_views(files@), asset_views(assets@).take(j as int)),
        decreases assets.len() - j,
    {
        text.append("\n附件：");
        text.append(assets[j].path.as_str());
        text.append("|");
        text.append(assets[j].name.as_str());
        proof {
            assert(asset_views(assets@).take(j + 1).drop_last() =~= asset_views(assets@).take(j as int));
            assert(asset_views(assets@).take(j + 1).last() == (assets@[j as int].path@, assets@[j as int].name@));
        }
        j = j + 1;
    }
    proof {
        assert(asset_views(assets@).take(assets@.len() as int) =~= asset_views(assets@));
    }
}

proof fn lemma_bound_index_unique(reg: Registry, full: Seq<char>, a: int, b: int)
    requires
        bound_index(reg.bound(), full, a),
        bound_index(reg.bound(), full, b),
    ensures
        a == b,
{
    if a < b {
        assert(reg.bound()[a].full_name@ != full);
    } else if b < a {
        assert(reg.bound()[b].full_name@ != full);
    }
}

/// Composes the user message of a request.  A forced tool must be a bound
/// tool that the model may call; its instruction replaces the text and the
/// person sees the display text or the tool's title.  Each staged file and
/// attachment adds a line; with any of them, the person sees the original
/// text when nothing else was set.  A forced tool of a plugin declared to
/// load lazily is looked up after the caller has loaded that plugin (see
/// `Registry::ensure_step`).
pub fn compose_user_message(
    reg: &Registry,
    text: &str,
    force_tool: Option<&ForcedToolRequest>,
    files: &Vec<String>,
    assets: &Vec<AttachmentInfo>,
) -> (r: Result<ComposedMessage, RpcError>)
    ensures
        match force_tool {
            None => {
                &&& r matches Ok(c)
                &&& c.text@ == with_attachments(text@, file_views(files@), asset_views(assets@))
                &&& opt_string_view(c.display_text) == (if files@.len() > 0 || assets@.len() > 0 {
                    Some(text@)
                } else {
                    None
                })
                &&& c.forced_wire is None
            },
            Some(ft) => {
                let full = ft.entry@;
                if forall|k: int| !tool_at(*reg, full, k) {
                    r matches Err(e) && e.code@ == "unknown_tool"@ && e.message@ == "注册失败："@ + lookup_failure_message(
                        reg.plugins(),
                        reg.bound(),
                        full,
                    )
                } else {
                    forall|k: int|
                        #![trigger tool_at(*reg, full, k)]
                        tool_at(*reg, full, k) ==> if reg.bound()[k].policy == CallerPolicy::UserOnly {
                            r matches Err(e) && e.code@ == "forbidden_tool"@ && e.message@ == forbidden_tool_message()
                        } else {
                            let hint = hint_text(opt_string_view(ft.hint));
                            let shown = forced_display(
                                opt_string_view(ft.display),
                                entry_title_of(reg.plugins(), full),
                                hint,
                            );
                            &&& r matches Ok(c)
                            &&& c.text@ == with_attachments(forced_text(full, hint), file_views(files@), asset_views(assets@))
                            &&& opt_string_view(c.display_text) == (if shown is None && (files@.len() > 0
                                || assets@.len() > 0) {
                                Some(text@)
                            } else {
                                shown
                            })
                            &&& c.forced_wire matches Some(w)
                            &&& w@ == crate::contract::wire_of(full)
                        }
                }
            },
        },
{
    let mut user_text = owned(text);
    let mut display_text: Option<String> = None;
    let mut forced_wire: Option<String> = None;
    match force_tool {
        None => {},
        Some(ft) => {
            let policy = match reg.entry(ft.entry.as_str(), EntryKind::Tool) {
                Ok(e) => {
                    proof {
                        let k = choose|k: int| bound_index(reg.bound(), ft.entry@, k) && *e == reg.bound()[k] && e.kind
                            == EntryKind::Tool;
                        assert(tool_at(*reg, ft.entry@, k));
                        assert forall|q: int| #[trigger] tool_at(*reg, ft.entry@, q) implies q == k by {
                            lemma_bound_index_unique(*reg, ft.entry@, q, k);
                        }
                    }
                    e.policy
                },
                Err(PluginError::Internal(m)) => {
                    proof {
                        assert forall|k: int| !tool_at(*reg, ft.entry@, k) by {}
                    }
                    return Err(RpcError { code: owned("unknown_tool"), message: concat2("注册失败：", m.as_str()) });
                },
                Err(_) => {
                    return Err(RpcError { code: owned("unknown_tool"), message: owned("注册失败") });
                },
            };
            if policy == CallerPolicy::UserOnly {
                return Err(RpcError::new("forbidden_tool", "该工具仅用户可调，不能被模型强制调用"));
            }
            let hint: String = match &ft.hint {
                Some(h) => trim_str(h.as_str()),
                None => String::new(),
            };
            proof {
                assert(hint@ == hint_text(opt_string_view(ft.hint)));
            }
            user_text = if hint.unicode_len() == 0 {
                crate::text::concat3("请调用工具 ", ft.entry.as_str(), " 处理当前请求。")
            } else {
                crate::text::concat3("请调用工具 ", ft.entry.as_str(), " 处理：").concat(hint.as_str())
            };
            let given: Option<String> = match &ft.display {
                Some(d) => if trim_str(d.as_str()).unicode_len() > 0 {
                    Some(owned(d.as_str()))
                } else {
                    None
                },
                None => None,
            };
            display_text = match given {
                Some(d) => Some(d),
                None => match reg.entry_title(ft.entry.as_str()) {
                    Some(title) => if hint.unicode_len() == 0 {
                        Some(title)
                    } else {
                        Some(crate::text::concat3(title.as_str(), "：", hint.as_str()))
                    },
                    None => None,
                },
            };
            forced_wire = Some(crate::contract::full_to_wire(ft.entry.as_str()));
        },
    }
    append_lines(&mut user_text, files, assets);
    if files.len() > 0 || assets.len() > 0 {
        if display_text.is_none() {
            display_text = Some(owned(text));
        }
    }
    Ok(ComposedMessage { text: user_text, display_text, forced_wire })
}

// ---------- the turn slot ----------

/// The running turn, if any: one turn at a time.
pub struct TurnSlot {
    turn: Option<SessionKey>,
}

pub open spec fn turn_in_progress_message() -> Seq<char> {
    "当前有回合在跑，请先停止再发送新消息"@
}

impl TurnSlot {
    pub closed spec fn running(&self) -> Option<SessionKey> {
        self.turn
    }

    pub fn new() -> (s: TurnSlot)
        ensures
            s.running() is None,
    {
        TurnSlot { turn: None }
    }

    /// Starts a turn of session `key`; refused while a turn runs.
    pub fn begin(&mut self, key: SessionKey) -> (r: Result<(), RpcError>)
        ensures
            old(self).running() is None ==> r is Ok && final(self).running() == Some(key),
            old(self).running() is Some ==> (r matches Err(e) && e.code@ == "turn_in_progress"@ && e.message@
                == turn_in_progress_message() && final(self).running() == old(self).running()),
    {
        if self.turn.is_some() {
            return Err(RpcError::new("turn_in_progress", "当前有回合在跑，请先停止再发送新消息"));
        }
        self.turn = Some(key);
        Ok(())
    }

    /// Ends the turn of session `key`; a turn of another session keeps running.
    pub fn finish(&mut self, key: SessionKey)
        ensures
            final(self).running() == if old(self).running() == Some(key) {
                None
            } else {
                old(self).running()
            },
    {
        if self.turn == Some(key) {
            self.turn = None;
        }
    }

    /// The answer to an abort request: whether a turn runs to be aborted
    /// (the caller cancels its signal).
    pub fn abort(&self) -> (aborted: bool)
        ensures
            aborted == self.running() is Some,
    {
        self.turn.is_some()
    }

    /// The state answered to `get_state`: "busy" with the running session, or
    /// "idle".
    pub fn state(&self) -> (r: (&'static str, Option<SessionKey>))
        ensures
            self.running() is Some ==> r.0@ == "busy"@ && r.1 == self.running(),
            self.running() is None ==> r.0@ == "idle"@ && r.1 is None,
    {
        match self.turn {
            Some(k) => ("busy", Some(k)),
            None => ("idle", None),
        }
    }
}

// ---------- the context a turn starts from ----------

/// The id a turn's context names: its first message's (the session root or
/// the hand-off summary that opened it), else the session key.
pub open spec fn context_session_id(key: SessionKey, messages: Seq<crate::message::MessageView>) -> Seq<char> {
    if messages.len() > 0 {
        crate::store::uuid_text(messages[0].id.0)
    } else {
        crate::store::uuid_text(key.0)
    }
}

/// The messages a turn runs on: a system message naming the current
/// session's id (`msg_id`, at `now`), then the path, so that the model can
/// tell which session it is in.
pub fn with_session_id(
    key: SessionKey,
    messages: Vec<crate::message::Message>,
    msg_id: crate::message::MessageId,
    now: i64,
) -> (r: Vec<crate::message::Message>)
    ensures
        crate::store::views(r@) == seq![
            crate::message::MessageView {
                id: msg_id,
                parent_id: None,
                kind: crate::message::KindView::System {
                    text: "当前会话 ID："@ + context_session_id(key, crate::store::views(messages@)),
                    display_text: None,
                },
                created_at: now,
            },
        ] + crate::store::views(messages@),
{
    let id_text = if messages.len() > 0 {
        crate::store::uuid_string(messages[0].id.0)
    } else {
        crate::store::uuid_string(key.0)
    };
    let text = concat2("当前会话 ID：", id_text.as_str());
    let head = crate::message::Message::system(msg_id, text.as_str(), now);
    let mut out: Vec<crate::message::Message> = Vec::new();
    out.push(head);
    let ghost first = out@;
    let mut rest = messages;
    out.append(&mut rest);
    proof {
        assert(crate::store::views(out@) =~= crate::store::views(first) + crate::store::views(messages@));
    }
    out
}

} // verus!
