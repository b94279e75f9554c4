//! Session lifecycle over the store: one active session at a time, new
//! messages continue it, a new session archives the old one (optionally
//! carrying a hand-off summary), reopening an old session, and titles.
use vstd::prelude::*;
use vstd::string::*;

use crate::message::{
    is_switch_call, AttachmentRef, AttachmentRefView, KindView, Message, MessageId, MessageKind, MessageView,
};
use crate::session::{Goal, SessionKey, SessionMeta, SessionMetaView, SessionStatus};
use crate::storage::StorageError;
use crate::store::{
    active_chain, archived_all, at_most_one_active, first_active, has_msg, has_session, id_unused,
    is_active, key_at, lemma_append_extends_path, lemma_archived_all_none_active, lemma_first_active,
    lemma_first_message_starts_path, lemma_msg_index_range, uuid_text, views, with_meta, EntryView,
    MemoryStorage,
};
use crate::text::{head, head_chars, owned};

verus! {

#[derive(Debug)]
pub enum SchedulerError {
    Storage(StorageError),
    Internal(String),
}

/// Where a turn runs and the active path it starts from.
#[derive(Debug)]
pub struct TurnContext {
    pub session_key: SessionKey,
    pub messages: Vec<Message>,
}

/// Result of a user-created session.
#[derive(Debug)]
pub struct CreatedSession {
    pub key: SessionKey,
    /// The previously active session, now archived (none when there was none).
    pub archived: Option<SessionKey>,
    /// Whether the hand-off summary became the first message of the new session.
    pub summary_attached: bool,
}

/// Idle time after which a new message raises an idle notice: 12 hours.
pub const IDLE_TIMEOUT_MS: i64 = 43_200_000;

/// Length of a goal cut from a text.
pub const GOAL_CHARS: usize = 40;

pub open spec fn opt_view(o: Option<&str>) -> Option<Seq<char>> {
    match o {
        Some(s) => Some(s@),
        None => None,
    }
}

/// The user message appended for a new turn.
pub open spec fn user_view(
    id: MessageId,
    parent: Option<MessageId>,
    text: Seq<char>,
    display: Option<Seq<char>>,
    refs: Seq<AttachmentRefView>,
    at: i64,
) -> MessageView {
    MessageView {
        id,
        parent_id: parent,
        kind: KindView::User { text, display_text: display, attachment_refs: refs },
        created_at: at,
    }
}

/// Parent of the next message: the end of the active path.
pub open spec fn path_end(e: EntryView) -> Option<MessageId> {
    let p = active_chain(e.messages, e.meta.active_path);
    if p.len() > 0 {
        Some(p.last().id)
    } else {
        None
    }
}

/// A session with a message appended that becomes the end of its active path.
pub open spec fn appended(e: EntryView, m: MessageView) -> EntryView {
    EntryView {
        messages: e.messages.push(m),
        meta: SessionMetaView { active_path: Some(m.id), ..e.meta },
        ..e
    }
}

/// A new, active session created at `now`.
pub open spec fn fresh_entry(key: SessionKey, goal: Option<Seq<char>>, now: i64) -> EntryView {
    EntryView {
        key,
        meta: SessionMetaView {
            key,
            goal,
            title: None,
            status: SessionStatus::Active,
            created_at: now,
            archived_at: None,
            last_activity_at: now,
            active_path: None,
        },
        messages: Seq::empty(),
    }
}

/// A new turn continues the conversation: a message with an unused id,
/// appended under the end of the active path and made its new end, extends
/// the active path by exactly that message.  (The session either holds no
/// message yet or has its active end set to a message it holds.)
pub proof fn lemma_turn_extends_active_path(e: EntryView, u: MessageView)
    requires
        e.messages.len() == 0 || (e.meta.active_path matches Some(end) && has_msg(e.messages, end)),
        u.parent_id == path_end(e),
        id_unused(e.messages, u.id),
    ensures
        active_chain(appended(e, u).messages, appended(e, u).meta.active_path) == active_chain(
            e.messages,
            e.meta.active_path,
        ).push(u),
{
    let list = e.messages;
    match e.meta.active_path {
        Some(end) => {
            if has_msg(list, end) {
                lemma_msg_index_range(list, end);
                assert(path_end(e) == Some(end));
                lemma_append_extends_path(list, end, u);
            } else {
                assert(list.len() == 0);
                assert(active_chain(list, Some(end)) =~= Seq::<MessageView>::empty());
                lemma_first_message_starts_path(list, u);
            }
        },
        None => {
            assert(list.len() == 0);
            lemma_first_message_starts_path(list, u);
            assert(seq![u] =~= list.push(u));
        },
    }
}

pub open spec fn refs_view(v: Seq<AttachmentRef>) -> Seq<AttachmentRefView> {
    v.map_values(|a: AttachmentRef| a@)
}

/// Appends a user message under the end of the active path and makes it
/// the new end; returns the new active path.
fn append_user(
    store: &mut MemoryStorage,
    key: &SessionKey,
    text: &str,
    display_text: Option<&str>,
    refs: Vec<AttachmentRef>,
    msg_id: MessageId,
    msg_at: i64,
) -> (r: Result<TurnContext, StorageError>)
    requires
        old(store).wf(),
        has_session(old(store).sessions(), *key),
    ensures
        final(store).wf(),
        final(store).mistakes() == old(store).mistakes(),
        forall|i: int| #[trigger]
            key_at(old(store).sessions(), *key, i) ==> {
                let e = old(store).sessions()[i];
                let u = user_view(msg_id, path_end(e), text@, opt_view(display_text), refs_view(refs@), msg_at);
                &&& r matches Ok(ctx)
                &&& ctx.session_key == *key
                &&& final(store).sessions() == old(store).sessions().update(i, appended(e, u))
                &&& views(ctx.messages@) == active_chain(e.messages.push(u), Some(msg_id))
            },
{
    let ghost s0 = store.sessions();
    let ghost i0 = choose|i: int| key_at(s0, *key, i);
    let path = match store.read_path(key) {
        Ok(p) => p,
        Err(e) => return Err(e),
    };
    let parent = if path.len() > 0 {
        Some(path[path.len() - 1].id)
    } else {
        None
    };
    let ghost rv = refs_view(refs@);
    let msg = Message {
        id: msg_id,
        parent_id: parent,
        kind: MessageKind::User {
            text: owned(text),
            display_text: match display_text {
                Some(d) => Some(owned(d)),
                None => None,
            },
            attachment_refs: refs,
        },
        created_at: msg_at,
    };
    proof {
        let e = s0[i0];
        assert(views(path@).len() == path@.len());
        if path@.len() > 0 {
            assert(views(path@).last() == path@.last()@);
        }
        assert(msg@ == user_view(msg_id, path_end(e), text@, opt_view(display_text), rv, msg_at));
    }
    let appended_ok = store.append_message(key, &msg);
    let ghost s1 = store.sessions();
    assert(key_at(s1, *key, i0));
    let set_ok = store.set_active_path(key, Some(msg_id));
    let ghost s2 = store.sessions();
    assert(key_at(s2, *key, i0));
    let ctx = match store.read_path(key) {
        Ok(p) => p,
        Err(e) => return Err(e),
    };
    proof {
        let e = s0[i0];
        let u = msg@;
        assert(s2 =~= s0.update(i0, appended(e, u)));
        assert forall|i: int| #[trigger] key_at(s0, *key, i) implies i == i0 by {
            if i != i0 {
                assert(s0[i].key != s0[i0].key);
            }
        }
    }
    Ok(TurnContext { session_key: *key, messages: ctx })
}

// ---------- keeping a turn's messages ----------

/// What keeping a turn's messages has done so far: the messages appended,
/// the last one kept (or the anchor a switch call left), and the last
/// switch call passed over.
pub open spec fn persist_step(
    st: (Seq<MessageView>, Option<MessageId>, Option<MessageId>),
    m: MessageView,
    skip: Option<MessageId>,
) -> (Seq<MessageView>, Option<MessageId>, Option<MessageId>) {
    if skip == Some(m.id) {
        st
    } else if is_switch_call(m) {
        (st.0, if st.1 is None {
            m.parent_id
        } else {
            st.1
        }, Some(m.id))
    } else {
        let m2 = match (st.2, st.1) {
            (Some(sid), Some(anchor)) => if m.parent_id == Some(sid) {
                MessageView { parent_id: Some(anchor), ..m }
            } else {
                m
            },
            _ => m,
        };
        (st.0.push(m2), Some(m2.id), st.2)
    }
}

/// Keeping a turn's messages, in order: the message `skip` (a compaction
/// summary, spliced in separately) and switch calls are left out, and a
/// message hung under a left-out switch call is hung under the last message
/// kept before it.
pub open spec fn persist_plan(ms: Seq<MessageView>, skip: Option<MessageId>) -> (
    Seq<MessageView>,
    Option<MessageId>,
    Option<MessageId>,
)
    decreases ms.len(),
{
    if ms.len() == 0 {
        (Seq::empty(), None, None)
    } else {
        persist_step(persist_plan(ms.drop_last(), skip), ms.last(), skip)
    }
}

/// The messages of a turn to append, and the last one kept.
pub fn plan_persist(messages: &Vec<Message>, skip_id: Option<MessageId>) -> (r: (Vec<Message>, Option<MessageId>))
    ensures
        views(r.0@) == persist_plan(views(messages@), skip_id).0,
        r.1 == persist_plan(views(messages@), skip_id).1,
{
    let mut out: Vec<Message> = Vec::new();
    let mut last_kept: Option<MessageId> = None;
    let mut skipped_switch: Option<MessageId> = None;
    let mut i: usize = 0;
    while i < messages.len()
        invariant
            i <= messages@.len(),
            (views(out@), last_kept, skipped_switch) == persist_plan(views(messages@).take(i as int), skip_id),
        decreases messages.len() - i,
    {
        let msg = &messages[i];
        let ghost pre = views(messages@).take(i as int);
        proof {
            assert(views(messages@).take(i + 1).drop_last() =~= pre);
            assert(views(messages@).take(i + 1).last() == msg@);
        }
        let skip = match skip_id {
            Some(s) => s == msg.id,
            None => false,
        };
        if skip {
        } else if msg.is_switch_tool_call() {
            if last_kept.is_none() {
                last_kept = msg.parent_id;
            }
            skipped_switch = Some(msg.id);
        } else {
            let mut m = msg.copy();
            match (skipped_switch, last_kept) {
                (Some(sid), Some(anchor)) => {
                    if m.parent_id == Some(sid) {
                        m.parent_id = Some(anchor);
                    }
                },
                _ => {},
            }
            let ghost before = out@;
            let id = m.id;
            out.push(m);
            proof {
                assert(views(out@) =~= views(before).push(out@[before.len() as int]@));
            }
            last_kept = Some(id);
        }
        i = i + 1;
    }
    proof {
        assert(views(messages@).take(messages@.len() as int) =~= views(messages@));
    }
    (out, last_kept)
}

/// Keeps a turn's messages in the session `key` (see `persist_plan`) and
/// returns the last one kept; a session that is not stored fails the first
/// append, with the store's error text.
pub fn persist_turn_messages(
    store: &mut MemoryStorage,
    key: &SessionKey,
    messages: &Vec<Message>,
    skip_id: Option<MessageId>,
) -> (r: Result<Option<MessageId>, String>)
    requires
        old(store).wf(),
    ensures
        final(store).wf(),
        final(store).mistakes() == old(store).mistakes(),
        ({
            let p = persist_plan(views(messages@), skip_id);
            let s = old(store).sessions();
            if p.0.len() == 0 {
                r == Ok::<Option<MessageId>, String>(p.1) && final(store).sessions() == s
            } else if !has_session(s, *key) {
                &&& r matches Err(e)
                &&& e@ == crate::store::storage_error_text(StorageError::SessionNotFound(*key))
                &&& final(store).sessions() == s
            } else {
                &&& r == Ok::<Option<MessageId>, String>(p.1)
                &&& forall|i: int|
                    #[trigger] key_at(s, *key, i) ==> final(store).sessions() == s.update(
                        i,
                        EntryView { messages: s[i].messages + p.0, ..s[i] },
                    )
            }
        }),
{
    let (plan, last) = plan_persist(messages, skip_id);
    let ghost s0 = store.sessions();
    let ghost p = views(plan@);
    let mut j: usize = 0;
    while j < plan.len()
        invariant
            store.wf(),
            store.mistakes() == old(store).mistakes(),
            s0 == old(store).sessions(),
            p == views(plan@),
            p == persist_plan(views(messages@), skip_id).0,
            last == persist_plan(views(messages@), skip_id).1,
            j <= plan@.len(),
            j > 0 ==> has_session(s0, *key),
            j == 0 ==> store.sessions() == s0,
            forall|i: int|
                #[trigger] key_at(s0, *key, i) ==> store.sessions() == s0.update(
                    i,
                    EntryView { messages: s0[i].messages + p.take(j as int), ..s0[i] },
                ),
        decreases plan.len() - j,
    {
        let ghost before = store.sessions();
        match store.append_message(key, &plan[j]) {
            Ok(()) => {},
            Err(e) => {
                proof {
                    assert(p.len() == plan@.len());
                    if has_session(s0, *key) {
                        let i = choose|i: int| key_at(s0, *key, i);
                        assert(key_at(s0, *key, i));
                        assert(before[i].key == *key);
                        assert(key_at(before, *key, i));
                    }
                }
                return Err(e.describe());
            },
        }
        proof {
            assert(has_session(before, *key));
            let k = choose|k: int| key_at(before, *key, k);
            assert(key_at(before, *key, k));
            if j == 0 {
                assert(key_at(s0, *key, k));
            }
            assert forall|i: int| #[trigger] key_at(s0, *key, i) implies store.sessions() == s0.update(
                i,
                EntryView { messages: s0[i].messages + p.take(j + 1), ..s0[i] },
            ) by {
                assert(before == s0.update(i, EntryView { messages: s0[i].messages + p.take(j as int), ..s0[i] }));
                assert(key_at(before, *key, i));
                assert(p.take(j + 1) =~= p.take(j as int).push(plan@[j as int]@));
                assert(s0[i].messages + p.take(j + 1) =~= (s0[i].messages + p.take(j as int)).push(plan@[j as int]@));
            }
        }
        j = j + 1;
    }
    proof {
        assert(p.take(p.len() as int) =~= p);
    }
    Ok(last)
}

/// Idle notice for a session last active at `last`: the idle seconds when
/// more than the idle timeout has passed.
pub open spec fn idle_notice(now: i64, last: i64) -> Option<i64> {
    if now - last > IDLE_TIMEOUT_MS {
        Some(((now - last) / 1000) as i64)
    } else {
        None
    }
}

fn idle_seconds(now: i64, last: i64) -> (r: Option<i64>)
    ensures
        r == idle_notice(now, last),
{
    let d: i128 = now as i128 - last as i128;
    if d > IDLE_TIMEOUT_MS as i128 {
        let secs: i128 = d / 1000;
        assert(secs <= i64::MAX) by (nonlinear_arith)
            requires
                d <= 2 * 0x8000_0000_0000_0000i128,
                secs == d / 1000,
                d > 0,
        ;
        Some(secs as i64)
    } else {
        None
    }
}

/// A new user message: it continues the active session, or, when there is
/// none, opens one whose goal is the message's first 40 characters.  Idle
/// time beyond the timeout is reported, never acted on.  The scheduler's
/// clock reads `now`; the message is stamped `msg_at`; `new_key` and
/// `msg_id` are the identities a new session and the message get.
pub fn on_new_message_at(
    store: &mut MemoryStorage,
    text: &str,
    display_text: Option<&str>,
    refs: Vec<AttachmentRef>,
    now: i64,
    msg_at: i64,
    new_key: SessionKey,
    msg_id: MessageId,
) -> (r: Result<(TurnContext, Option<i64>), SchedulerError>)
    requires
        old(store).wf(),
    ensures
        final(store).wf(),
        final(store).mistakes() == old(store).mistakes(),
        at_most_one_active(old(store).sessions()) ==> at_most_one_active(final(store).sessions()),
        ({
            let s = old(store).sessions();
            let a = first_active(s);
            if a < 0 {
                if has_session(s, new_key) {
                    &&& r matches Err(SchedulerError::Storage(StorageError::AlreadyExists(m)))
                    &&& m@ == uuid_text(new_key.0)
                    &&& final(store).sessions() == s
                } else {
                    let u = user_view(msg_id, None, text@, opt_view(display_text), refs_view(refs@), msg_at);
                    let e = appended(fresh_entry(new_key, Some(head(text@, GOAL_CHARS as nat)), now), u);
                    &&& r matches Ok((ctx, idle))
                    &&& ctx.session_key == new_key
                    &&& idle is None
                    &&& final(store).sessions() == s.push(e)
                    &&& views(ctx.messages@) == active_chain(e.messages, e.meta.active_path)
                }
            } else {
                let e0 = s[a];
                let e1 = with_meta(e0, SessionMetaView { last_activity_at: now, ..e0.meta });
                let u = user_view(msg_id, path_end(e1), text@, opt_view(display_text), refs_view(refs@), msg_at);
                let e = appended(e1, u);
                &&& r matches Ok((ctx, idle))
                &&& ctx.session_key == e0.key
                &&& idle == idle_notice(now, e0.meta.last_activity_at)
                &&& final(store).sessions() == s.update(a, e)
                &&& views(ctx.messages@) == active_chain(e.messages, e.meta.active_path)
            }
        }),
{
    let ghost s = store.sessions();
    proof {
        lemma_first_active(s);
    }
    match store.active_session_key() {
        None => {
            let goal = Goal { text: head_chars(text, GOAL_CHARS) };
            let mut meta = SessionMeta::new(new_key, now);
            meta.goal = Some(goal);
            match store.create_session(&new_key, &meta) {
                Ok(()) => {},
                Err(e) => return Err(SchedulerError::Storage(e)),
            }
            let ghost s1 = store.sessions();
            proof {
                assert(key_at(s1, new_key, s.len() as int));
            }
            let ctx = match append_user(store, &new_key, text, display_text, refs, msg_id, msg_at) {
                Ok(c) => c,
                Err(e) => return Err(SchedulerError::Storage(e)),
            };
            proof {
                let s2 = store.sessions();
                let e0 = s1[s.len() as int];
                assert(e0 == fresh_entry(new_key, Some(head(text@, GOAL_CHARS as nat)), now));
                assert(active_chain(e0.messages, e0.meta.active_path) =~= Seq::<MessageView>::empty());
                assert(s2 =~= s.push(s2[s.len() as int]));
                let f = s2;
                assert forall|i: int, j: int| 0 <= i < f.len() && 0 <= j < f.len() && is_active(#[trigger] f[i]) && is_active(#[trigger] f[j]) implies i == j by {
                    if i < s.len() {
                        assert(f[i] == s[i]);
                    }
                    if j < s.len() {
                        assert(f[j] == s[j]);
                    }
                }
            }
            Ok((ctx, None))
        },
        Some(key) => {
            let ghost a = first_active(s);
            proof {
                assert(key_at(s, key, a));
            }
            let last = match store.get_session(&key) {
                Some(m) => m.last_activity_at,
                None => {
                    return Err(SchedulerError::Internal(owned("会话不存在")));
                },
            };
            proof {
                assert forall|i: int| #[trigger] key_at(s, key, i) implies i == a by {
                    if i != a {
                        assert(s[i].key != s[a].key);
                    }
                }
                assert(last == s[a].meta.last_activity_at);
            }
            let idle = idle_seconds(now, last);
            match store.set_last_activity(&key, now) {
                Ok(()) => {},
                Err(e) => return Err(SchedulerError::Storage(e)),
            }
            let ghost s1 = store.sessions();
            proof {
                assert(key_at(s1, key, a));
            }
            let ctx = match append_user(store, &key, text, display_text, refs, msg_id, msg_at) {
                Ok(c) => c,
                Err(e) => return Err(SchedulerError::Storage(e)),
            };
            proof {
                let s2 = store.sessions();
                assert forall|i: int, j: int| 0 <= i < s2.len() && 0 <= j < s2.len() && is_active(#[trigger] s2[i]) && is_active(#[trigger] s2[j]) && at_most_one_active(s) implies i == j by {
                    assert(is_active(s2[i]) == is_active(s[i]));
                    assert(is_active(s2[j]) == is_active(s[j]));
                }
            }
            Ok((ctx, idle))
        },
    }
}

/// The user deletes a session with all its messages.  Deleting the active
/// session leaves none active, so an empty session `new_key` (created at
/// `now`) takes its place and is returned; deleting an archived one changes
/// nothing else.  An unknown session is a storage error.
pub fn delete_session_with(store: &mut MemoryStorage, key: &SessionKey, new_key: SessionKey, now: i64) -> (r: Result<
    Option<SessionKey>,
    SchedulerError,
>)
    requires
        old(store).wf(),
    ensures
        final(store).wf(),
        final(store).mistakes() == old(store).mistakes(),
        ({
            let s = old(store).sessions();
            if !has_session(s, *key) {
                &&& r matches Err(SchedulerError::Storage(StorageError::SessionNotFound(k)))
                &&& k == *key
                &&& final(store).sessions() == s
            } else {
                forall|i: int|
                    #[trigger] key_at(s, *key, i) ==> {
                        let rest = s.remove(i);
                        if !is_active(s[i]) {
                            &&& r == Ok::<Option<SessionKey>, SchedulerError>(None)
                            &&& final(store).sessions() == rest
                        } else if has_session(rest, new_key) {
                            &&& r matches Err(SchedulerError::Storage(StorageError::AlreadyExists(m)))
                            &&& m@ == uuid_text(new_key.0)
                            &&& final(store).sessions() == rest
                        } else {
                            &&& r == Ok::<Option<SessionKey>, SchedulerError>(Some(new_key))
                            &&& final(store).sessions() == rest.push(fresh_entry(new_key, None, now))
                        }
                    }
            }
        }),
        at_most_one_active(old(store).sessions()) ==> at_most_one_active(final(store).sessions()),
        at_most_one_active(old(store).sessions()) ==> (r matches Ok(Some(k)) ==> (first_active(final(store).sessions())
            >= 0 && final(store).sessions()[first_active(final(store).sessions())].key == k)),
{
    let ghost s = store.sessions();
    let was_active = match store.get_session(key) {
        None => {
            return Err(SchedulerError::Storage(StorageError::SessionNotFound(*key)));
        },
        Some(m) => m.status == SessionStatus::Active,
    };
    let ghost i0 = choose|i: int| key_at(s, *key, i);
    proof {
        assert(key_at(s, *key, i0));
        assert forall|i: int| #[trigger] key_at(s, *key, i) implies i == i0 by {
            if i != i0 {
                assert(s[i].key != s[i0].key);
            }
        }
        assert(was_active == is_active(s[i0]));
    }
    match store.remove_session(key) {
        Ok(()) => {},
        Err(e) => return Err(SchedulerError::Storage(e)),
    }
    let ghost rest = s.remove(i0);
    assert(store.sessions() == rest);
    proof {
        assert forall|a: int, b: int|
            0 <= a < rest.len() && 0 <= b < rest.len() && is_active(#[trigger] rest[a]) && is_active(#[trigger] rest[b])
                && at_most_one_active(s) implies a == b by {
            let a0 = if a < i0 { a } else { a + 1 };
            let b0 = if b < i0 { b } else { b + 1 };
            assert(rest[a] == s[a0]);
            assert(rest[b] == s[b0]);
        }
    }
    if !was_active {
        return Ok(None);
    }
    let meta = SessionMeta::new(new_key, now);
    match store.create_session(&new_key, &meta) {
        Ok(()) => {},
        Err(e) => return Err(SchedulerError::Storage(e)),
    }
    proof {
        let f = store.sessions();
        assert(f == rest.push(fresh_entry(new_key, None, now)));
        if at_most_one_active(s) {
            assert forall|j: int| 0 <= j < rest.len() implies !is_active(#[trigger] rest[j]) by {
                let j0 = if j < i0 { j } else { j + 1 };
                assert(rest[j] == s[j0]);
                assert(j0 != i0);
            }
            assert forall|a: int, b: int|
                0 <= a < f.len() && 0 <= b < f.len() && is_active(#[trigger] f[a]) && is_active(#[trigger] f[b]) implies a
                == b by {
                if a < rest.len() {
                    assert(f[a] == rest[a]);
                }
                if b < rest.len() {
                    assert(f[b] == rest[b]);
                }
            }
            lemma_first_active(f);
            assert(is_active(f[rest.len() as int]));
            if first_active(f) >= 0 && first_active(f) < rest.len() {
                assert(f[first_active(f)] == rest[first_active(f)]);
            }
        }
    }
    Ok(Some(new_key))
}

/// The hand-off text kept: one that is not blank.
pub open spec fn kept_handoff(h: Option<Seq<char>>) -> Option<Seq<char>> {
    match h {
        Some(t) => if crate::text::trim(t).len() > 0 {
            Some(t)
        } else {
            None
        },
        None => None,
    }
}

pub open spec fn handoff_prefix() -> Seq<char> {
    "上一会话梗概："@
}

/// The system message that carries a hand-off summary.
pub open spec fn handoff_view(id: MessageId, text: Seq<char>, at: i64) -> MessageView {
    MessageView {
        id,
        parent_id: None,
        kind: KindView::System { text: handoff_prefix() + text, display_text: None },
        created_at: at,
    }
}

/// The session a user creates: goal given, else cut from the hand-off;
/// the hand-off, when kept, as its first message.
pub open spec fn created_entry(
    key: SessionKey,
    goal: Option<Seq<char>>,
    handoff: Option<Seq<char>>,
    summary_id: MessageId,
    now: i64,
) -> EntryView {
    let g = match goal {
        Some(g) => Some(g),
        None => match handoff {
            Some(h) => Some(head(h, GOAL_CHARS as nat)),
            None => None,
        },
    };
    let e = fresh_entry(key, g, now);
    match handoff {
        Some(h) => appended(e, handoff_view(summary_id, h, now)),
        None => e,
    }
}

pub open spec fn goal_view(g: Option<Goal>) -> Option<Seq<char>> {
    match g {
        Some(g) => Some(g.text@),
        None => None,
    }
}

/// A session created by the user: every active session is archived (at
/// `archive_time`), then a new active session `key` is created at `now`.
/// A hand-off summary of the old session that is not blank becomes the new
/// session's first message (`summary_id`).  Afterwards the new session is
/// the only active one.
pub fn create_new_session_with(
    store: &mut MemoryStorage,
    goal: Option<Goal>,
    handoff: Option<String>,
    key: SessionKey,
    summary_id: MessageId,
    now: i64,
    archive_time: i64,
) -> (r: Result<CreatedSession, SchedulerError>)
    requires
        old(store).wf(),
    ensures
        final(store).wf(),
        final(store).mistakes() == old(store).mistakes(),
        ({
            let s = old(store).sessions();
            let arch = archived_all(s, archive_time);
            let h = kept_handoff(crate::message::opt_str(handoff));
            if has_session(s, key) {
                &&& r matches Err(SchedulerError::Storage(StorageError::AlreadyExists(m)))
                &&& m@ == uuid_text(key.0)
                &&& final(store).sessions() == arch
            } else {
                &&& r matches Ok(c)
                &&& c.key == key
                &&& c.archived == if first_active(s) >= 0 {
                    Some(s[first_active(s)].key)
                } else {
                    None::<SessionKey>
                }
                &&& c.summary_attached == h is Some
                &&& final(store).sessions() == arch.push(created_entry(key, goal_view(goal), h, summary_id, now))
                &&& at_most_one_active(final(store).sessions())
                &&& first_active(final(store).sessions()) == s.len()
            }
        }),
{
    let ghost s = store.sessions();
    let ghost h = kept_handoff(crate::message::opt_str(handoff));
    let archived = store.active_session_key();
    let kept: Option<String> = match handoff {
        Some(t) => {
            if crate::text::trim_str(t.as_str()).unicode_len() > 0 {
                Some(t)
            } else {
                None
            }
        },
        None => None,
    };
    store.archive_all_active_at(archive_time);
    let ghost arch = store.sessions();
    proof {
        lemma_archived_all_none_active(s, archive_time);
        assert forall|i: int| #[trigger] key_at(arch, key, i) <==> key_at(s, key, i) by {
            if 0 <= i < s.len() {
                assert(arch[i].key == s[i].key);
            }
        }
        if has_session(s, key) {
            let w = choose|i: int| key_at(s, key, i);
            assert(key_at(arch, key, w));
        }
    }
    let goal = match goal {
        Some(g) => Some(g),
        None => match &kept {
            Some(t) => Some(Goal { text: head_chars(t.as_str(), GOAL_CHARS) }),
            None => None,
        },
    };
    let mut meta = SessionMeta::new(key, now);
    meta.goal = goal;
    match store.create_session(&key, &meta) {
        Ok(()) => {},
        Err(e) => return Err(SchedulerError::Storage(e)),
    }
    let ghost s1 = store.sessions();
    proof {
        assert(key_at(s1, key, s.len() as int));
    }
    let mut attached = false;
    match kept {
        Some(t) => {
            let text = crate::text::concat2("上一会话梗概：", t.as_str());
            let msg = Message {
                id: summary_id,
                parent_id: None,
                kind: MessageKind::System { text, display_text: None },
                created_at: now,
            };
            match store.append_message(&key, &msg) {
                Ok(()) => {},
                Err(e) => return Err(SchedulerError::Storage(e)),
            }
            proof {
                assert(key_at(store.sessions(), key, s.len() as int));
            }
            match store.set_active_path(&key, Some(summary_id)) {
                Ok(()) => {},
                Err(e) => return Err(SchedulerError::Storage(e)),
            }
            attached = true;
        },
        None => {},
    }
    proof {
        let f = store.sessions();
        assert(f =~= arch.push(created_entry(key, goal_view(goal), h, summary_id, now)));
        assert forall|i: int, j: int| 0 <= i < f.len() && 0 <= j < f.len() && is_active(#[trigger] f[i]) && is_active(#[trigger] f[j]) implies i == j by {
            if i < s.len() {
                assert(f[i] == arch[i]);
            }
            if j < s.len() {
                assert(f[j] == arch[j]);
            }
        }
        lemma_first_active(f);
        if first_active(f) < s.len() {
            assert(f[first_active(f)] == arch[first_active(f)]);
        }
        assert(is_active(f[s.len() as int]));
    }
    Ok(CreatedSession { key, archived, summary_attached: attached })
}

/// What the hand-off summariser reads: all messages and the goal of the
/// first active session, when it has any message.
pub fn handoff_source(store: &MemoryStorage) -> (r: Option<(Vec<Message>, Option<Goal>)>)
    requires
        store.wf(),
    ensures
        ({
            let s = store.sessions();
            let a = first_active(s);
            if a < 0 || s[a].messages.len() == 0 {
                r is None
            } else {
                r matches Some((msgs, g)) && views(msgs@) == s[a].messages && goal_view(g) == s[a].meta.goal
            }
        }),
{
    let ghost s = store.sessions();
    proof {
        lemma_first_active(s);
    }
    let key = match store.active_session_key() {
        Some(k) => k,
        None => return None,
    };
    let ghost a = first_active(s);
    proof {
        assert(key_at(s, key, a));
    }
    let all = store.read_all(&key);
    if all.len() == 0 {
        return None;
    }
    let meta = match store.get_session(&key) {
        Some(m) => m,
        None => return None,
    };
    proof {
        assert forall|i: int| #[trigger] key_at(s, key, i) implies i == a by {
            if i != a {
                assert(s[i].key != s[a].key);
            }
        }
    }
    Some((all, meta.goal))
}

/// The user reopens an existing session: every active session is archived
/// (at `archive_time`) and the chosen one becomes active; its last activity
/// time is left alone.  An unknown session is an internal error.
pub fn open_existing_at(store: &mut MemoryStorage, key: SessionKey, archive_time: i64) -> (r: Result<(), SchedulerError>)
    requires
        old(store).wf(),
    ensures
        final(store).wf(),
        final(store).mistakes() == old(store).mistakes(),
        !has_session(old(store).sessions(), key) ==> {
            &&& r matches Err(SchedulerError::Internal(m))
            &&& m@ == "会话不存在："@ + uuid_text(key.0)
            &&& final(store).sessions() == old(store).sessions()
        },
        forall|i: int| #[trigger]
            key_at(old(store).sessions(), key, i) ==> {
                let arch = archived_all(old(store).sessions(), archive_time);
                &&& r is Ok
                &&& final(store).sessions() == arch.update(
                    i,
                    with_meta(arch[i], SessionMetaView { status: SessionStatus::Active, archived_at: None, ..arch[i].meta }),
                )
                &&& at_most_one_active(final(store).sessions())
                &&& first_active(final(store).sessions()) == i
            },
{
    let ghost s = store.sessions();
    if store.get_session(&key).is_none() {
        let name = crate::store::uuid_string(key.0);
        return Err(SchedulerError::Internal(crate::text::concat2("会话不存在：", name.as_str())));
    }
    let ghost i0 = choose|i: int| key_at(s, key, i);
    store.archive_all_active_at(archive_time);
    let ghost arch = store.sessions();
    proof {
        lemma_archived_all_none_active(s, archive_time);
        assert forall|i: int| #[trigger] key_at(arch, key, i) <==> key_at(s, key, i) by {
            if 0 <= i < s.len() {
                assert(arch[i].key == s[i].key);
            }
        }
        assert(key_at(arch, key, i0));
    }
    match store.activate(&key) {
        Ok(()) => {},
        Err(e) => return Err(SchedulerError::Storage(e)),
    }
    proof {
        assert forall|i: int| #[trigger] key_at(s, key, i) implies {
            &&& at_most_one_active(store.sessions())
            &&& first_active(store.sessions()) == i
        } by {
            let f = store.sessions();
            assert forall|a: int, b: int| 0 <= a < f.len() && 0 <= b < f.len() && is_active(#[trigger] f[a]) && is_active(#[trigger] f[b]) implies a == b by {
                if a != i {
                    assert(f[a] == arch[a]);
                }
                if b != i {
                    assert(f[b] == arch[b]);
                }
            }
            lemma_first_active(f);
            if first_active(f) != i && first_active(f) >= 0 {
                assert(f[first_active(f)] == arch[first_active(f)]);
            }
            assert(is_active(f[i]));
        }
    }
    Ok(())
}

// ---------- titles and summaries ----------

/// Length of a title cut from a message.
pub const TITLE_CHARS: usize = 40;

pub open spec fn visible_or_empty(m: MessageView) -> Seq<char> {
    match crate::message::visible_text_of(m) {
        Some(t) => t,
        None => Seq::empty(),
    }
}

/// The fallback title: the visible text of the first user message whose
/// trimmed text is not empty, trimmed and cut to 40 characters; "新会话"
/// when there is none.
pub open spec fn fallback_title_of(msgs: Seq<MessageView>) -> Seq<char>
    decreases msgs.len(),
{
    if msgs.len() == 0 {
        "新会话"@
    } else {
        let t = head(crate::text::trim(visible_or_empty(msgs[0])), TITLE_CHARS as nat);
        if msgs[0].kind is User && t.len() > 0 {
            t
        } else {
            fallback_title_of(msgs.drop_first())
        }
    }
}

/// Title used when the model gives none (also the stub titler's title).
pub fn fallback_title(messages: &Vec<Message>) -> (r: String)
    ensures
        r@ == fallback_title_of(views(messages@)),
{
    let ghost all = views(messages@);
    let mut i: usize = 0;
    proof {
        assert(all.skip(0) =~= all);
    }
    while i < messages.len()
        invariant
            all == views(messages@),
            i <= messages@.len(),
            fallback_title_of(all) == fallback_title_of(all.skip(i as int)),
        decreases messages.len() - i,
    {
        let m = &messages[i];
        proof {
            assert(all.skip(i as int)[0] == m@);
            assert(all.skip(i as int).drop_first() =~= all.skip(i + 1));
        }
        match &m.kind {
            MessageKind::User { .. } => {
                let vis: &str = match crate::message::visible_text(m) {
                    Some(v) => v,
                    None => "",
                };
                let t = crate::text::trim_str(vis);
                let cut = head_chars(t.as_str(), TITLE_CHARS);
                if cut.unicode_len() > 0 {
                    proof {
                        assert(visible_or_empty(m@) == vis@);
                    }
                    return cut;
                }
                proof {
                    assert(visible_or_empty(m@) == vis@);
                }
            },
            _ => {},
        }
        i = i + 1;
    }
    proof {
        assert(all.skip(i as int) =~= Seq::<MessageView>::empty());
    }
    owned("新会话")
}

/// Whether a session has a title that is not blank.
pub open spec fn has_title(e: EntryView) -> bool {
    e.meta.title matches Some(t) && crate::text::trim(t).len() > 0
}

pub open spec fn has_kind_user(msgs: Seq<MessageView>) -> bool {
    exists|i: int| 0 <= i < msgs.len() && (#[trigger] msgs[i]).kind is User
}

pub open spec fn has_kind_assistant(msgs: Seq<MessageView>) -> bool {
    exists|i: int| 0 <= i < msgs.len() && (#[trigger] msgs[i]).kind is Assistant
}

/// A title is generated once: for a session without a title that has a
/// user message and an assistant reply.
pub open spec fn title_wanted(e: EntryView) -> bool {
    !has_title(e) && has_kind_user(e.messages) && has_kind_assistant(e.messages)
}

fn title_present(meta: &SessionMeta) -> (b: bool)
    ensures
        b == (meta@.title matches Some(t) && crate::text::trim(t).len() > 0),
{
    match &meta.title {
        Some(t) => crate::text::trim_str(t.as_str()).unicode_len() > 0,
        None => false,
    }
}

fn kinds_present(messages: &Vec<Message>) -> (r: (bool, bool))
    ensures
        r.0 == has_kind_user(views(messages@)),
        r.1 == has_kind_assistant(views(messages@)),
{
    let ghost all = views(messages@);
    let mut user = false;
    let mut assistant = false;
    let mut i: usize = 0;
    while i < messages.len()
        invariant
            all == views(messages@),
            i <= messages@.len(),
            user == exists|j: int| 0 <= j < i && (#[trigger] all[j]).kind is User,
            assistant == exists|j: int| 0 <= j < i && (#[trigger] all[j]).kind is Assistant,
        decreases messages.len() - i,
    {
        proof {
            assert(all[i as int] == messages@[i as int]@);
        }
        match &messages[i].kind {
            MessageKind::User { .. } => {
                user = true;
            },
            MessageKind::Assistant { .. } => {
                assistant = true;
            },
            _ => {},
        }
        i = i + 1;
    }
    (user, assistant)
}

/// The messages a titler reads, when the session wants a title.
pub fn title_request(store: &MemoryStorage, key: &SessionKey) -> (r: Option<Vec<Message>>)
    requires
        store.wf(),
    ensures
        !has_session(store.sessions(), *key) ==> r is None,
        forall|i: int| #[trigger]
            key_at(store.sessions(), *key, i) ==> if title_wanted(store.sessions()[i]) {
                r matches Some(v) && views(v@) == store.sessions()[i].messages
            } else {
                r is None
            },
{
    let meta = match store.get_session(key) {
        Some(m) => m,
        None => return None,
    };
    proof {
        assert forall|i: int, j: int| key_at(store.sessions(), *key, i) && key_at(store.sessions(), *key, j) implies i == j by {
            if i != j {
                assert(store.sessions()[i].key != store.sessions()[j].key);
            }
        }
    }
    if title_present(&meta) {
        return None;
    }
    let messages = store.read_all(key);
    let (user, assistant) = kinds_present(&messages);
    if !user || !assistant {
        return None;
    }
    Some(messages)
}

/// The title written for a generated one: the generated text when it is not
/// blank, else the fallback title.
pub open spec fn chosen_title(generated: Seq<char>, msgs: Seq<MessageView>) -> Seq<char> {
    if crate::text::trim(generated).len() > 0 {
        generated
    } else {
        fallback_title_of(msgs)
    }
}

/// Writes a generated title back, unless the session got a title meanwhile
/// (a user's name is never overwritten).  Returns the title written.
pub fn apply_generated_title(store: &mut MemoryStorage, key: &SessionKey, generated: &str) -> (r: Result<
    Option<String>,
    SchedulerError,
>)
    requires
        old(store).wf(),
    ensures
        final(store).wf(),
        final(store).mistakes() == old(store).mistakes(),
        !has_session(old(store).sessions(), *key) ==> {
            &&& r matches Err(SchedulerError::Storage(StorageError::SessionNotFound(k)))
            &&& k == *key
            &&& final(store).sessions() == old(store).sessions()
        },
        forall|i: int| #[trigger]
            key_at(old(store).sessions(), *key, i) ==> {
                let e = old(store).sessions()[i];
                if has_title(e) {
                    r matches Ok(None) && final(store).sessions() == old(store).sessions()
                } else {
                    let t = chosen_title(generated@, e.messages);
                    &&& r matches Ok(Some(x)) && x@ == t
                    &&& final(store).sessions() == old(store).sessions().update(
                        i,
                        with_meta(e, crate::store::titled(e.meta, Some(t))),
                    )
                }
            },
{
    let ghost s = store.sessions();
    proof {
        assert forall|i: int, j: int| key_at(s, *key, i) && key_at(s, *key, j) implies i == j by {
            if i != j {
                assert(s[i].key != s[j].key);
            }
        }
    }
    match store.get_session(key) {
        Some(meta) => {
            if title_present(&meta) {
                return Ok(None);
            }
        },
        None => {},
    }
    let messages = store.read_all(key);
    let title = if crate::text::trim_str(generated).unicode_len() > 0 {
        owned(generated)
    } else {
        fallback_title(&messages)
    };
    match store.set_title(key, Some(title.as_str())) {
        Ok(()) => {},
        Err(e) => return Err(SchedulerError::Storage(e)),
    }
    Ok(Some(title))
}

/// Generates the title after the first turn with the stub titler (the
/// fallback title); see `title_request` and `apply_generated_title`.
pub fn maybe_generate_title(store: &mut MemoryStorage, key: &SessionKey) -> (r: Result<Option<String>, SchedulerError>)
    requires
        old(store).wf(),
    ensures
        final(store).wf(),
        final(store).mistakes() == old(store).mistakes(),
        !has_session(old(store).sessions(), *key) ==> (r matches Ok(None) && final(store).sessions() == old(
            store,
        ).sessions()),
        forall|i: int| #[trigger]
            key_at(old(store).sessions(), *key, i) ==> {
                let e = old(store).sessions()[i];
                if !title_wanted(e) {
                    r matches Ok(None) && final(store).sessions() == old(store).sessions()
                } else {
                    let t = fallback_title_of(e.messages);
                    &&& r matches Ok(Some(x)) && x@ == t
                    &&& final(store).sessions() == old(store).sessions().update(
                        i,
                        with_meta(e, crate::store::titled(e.meta, Some(t))),
                    )
                }
            },
{
    let messages = match title_request(store, key) {
        Some(m) => m,
        None => return Ok(None),
    };
    let generated = fallback_title(&messages);
    apply_generated_title(store, key, generated.as_str())
}

/// Goal text of the stub summary when no goal was recorded.
pub open spec fn no_goal_text() -> Seq<char> {
    "（未记录目标）"@
}

/// The stub hand-off summary: message count and goal.
pub open spec fn stub_summary_of(count: nat, goal: Option<Seq<char>>) -> Seq<char> {
    "上一个会话共 "@ + crate::text::decimal(count) + " 条消息，会话目标："@ + match goal {
        Some(g) => g,
        None => no_goal_text(),
    } + "。"@
}

/// The stub summariser: "上一个会话共 N 条消息，会话目标：G。".
pub fn stub_summary(messages: &Vec<Message>, goal: Option<&Goal>) -> (r: String)
    ensures
        r@ == stub_summary_of(messages@.len(), match goal {
            Some(g) => Some(g.text@),
            None => None,
        }),
{
    let mut out = owned("上一个会话共 ");
    crate::text::push_decimal(&mut out, messages.len());
    out.append(" 条消息，会话目标：");
    match goal {
        Some(g) => out.append(g.text.as_str()),
        None => out.append("（未记录目标）"),
    }
    out.append("。");
    out
}

/// The stub hand-off summary of the first active session, when one is
/// asked for and that session has messages.
pub open spec fn stub_handoff(s: Seq<EntryView>, carry_summary: bool) -> Option<Seq<char>> {
    let a = first_active(s);
    if carry_summary && a >= 0 && s[a].messages.len() > 0 {
        Some(stub_summary_of(s[a].messages.len(), s[a].meta.goal))
    } else {
        None
    }
}

/// What creating a session `key` (hand-off `h` as given, first message
/// `summary_id`, at `now`) does to sessions `s`, leaving `f` and `r`: as
/// `create_new_session_with` states it.
pub open spec fn new_session_outcome(
    s: Seq<EntryView>,
    f: Seq<EntryView>,
    r: Result<CreatedSession, SchedulerError>,
    goal: Option<Seq<char>>,
    handoff: Option<Seq<char>>,
    key: SessionKey,
    summary_id: MessageId,
    now: i64,
) -> bool {
    let arch = archived_all(s, now);
    let h = kept_handoff(handoff);
    if has_session(s, key) {
        &&& r matches Err(SchedulerError::Storage(StorageError::AlreadyExists(m)))
        &&& m@ == uuid_text(key.0)
        &&& f == arch
    } else {
        &&& r matches Ok(c)
        &&& c.key == key
        &&& c.archived == if first_active(s) >= 0 {
            Some(s[first_active(s)].key)
        } else {
            None::<SessionKey>
        }
        &&& c.summary_attached == h is Some
        &&& f == arch.push(created_entry(key, goal, h, summary_id, now))
        &&& at_most_one_active(f)
        &&& first_active(f) == s.len()
    }
}

/// A user-created session with the stub summariser, fresh identities and
/// the current time; see `create_new_session_with`.  The hand-off, when
/// asked for, is the stub summary of the active session; which key, first
/// message id and time the session gets is not known beforehand (a key
/// already stored fails the creation).
pub fn create_new_session(store: &mut MemoryStorage, goal: Option<Goal>, carry_summary: bool) -> (r: Result<
    CreatedSession,
    SchedulerError,
>)
    requires
        old(store).wf(),
    ensures
        final(store).wf(),
        final(store).mistakes() == old(store).mistakes(),
        exists|key: SessionKey, summary_id: MessageId, now: i64|
            #[trigger] new_session_outcome(
                old(store).sessions(),
                final(store).sessions(),
                r,
                goal_view(goal),
                stub_handoff(old(store).sessions(), carry_summary),
                key,
                summary_id,
                now,
            ),
        r is Ok ==> at_most_one_active(final(store).sessions()),
        r matches Ok(c) ==> first_active(final(store).sessions()) == old(store).sessions().len()
            && final(store).sessions()[first_active(final(store).sessions())].key == c.key,
{
    let ghost s = store.sessions();
    let handoff = if carry_summary {
        match handoff_source(store) {
            Some((msgs, g)) => {
                let gref = match &g {
                    Some(x) => Some(x),
                    None => None,
                };
                Some(stub_summary(&msgs, gref))
            },
            None => None,
        }
    } else {
        None
    };
    proof {
        assert(crate::message::opt_str(handoff) == stub_handoff(s, carry_summary));
    }
    let key = SessionKey(crate::store::fresh_uuid());
    let summary_id = MessageId(crate::store::fresh_uuid());
    let now = crate::store::now_millis();
    let ghost g = goal_view(goal);
    let r = create_new_session_with(store, goal, handoff, key, summary_id, now, now);
    proof {
        assert(new_session_outcome(s, store.sessions(), r, g, stub_handoff(s, carry_summary), key, summary_id, now));
    }
    r
}

} // verus!
