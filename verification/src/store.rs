//! In-memory storage service: sessions with their message trees, and the
//! mistake notebook.
use vstd::prelude::*;
use vstd::string::*;

use crate::mistake::{live, passes, patched, Mistake, MistakeFilter, MistakeId, MistakePatch, MistakeView};
use crate::message::{KindView, Message, MessageId, MessageKind, MessageView};
use crate::session::{Goal, SessionKey, SessionMeta, SessionMetaView, SessionStatus};
use crate::storage::StorageError;
use crate::text::{hex_digits, owned, trim, trim_str};

verus! {

// ---------- what comes from outside ----------

/// Text form of a UUID: its 32 lower-case hex digits, most significant
/// first, in groups of 8, 4, 4, 4 and 12 joined by hyphens.
pub open spec fn uuid_text(v: u128) -> Seq<char> {
    let h = hex_digits(v as nat, 32);
    h.subrange(0, 8) + "-"@ + h.subrange(8, 12) + "-"@ + h.subrange(12, 16) + "-"@ + h.subrange(16, 20) + "-"@
        + h.subrange(20, 32)
}

/// `uuid::Uuid::from_u128(v).to_string()`: `from_u128` takes the value's
/// big-endian bytes, and `Display` writes them in the hyphenated lower-case
/// form.
#[verifier::external_body]
pub(crate) fn uuid_string(v: u128) -> (s: String)
    ensures
        s@ == uuid_text(v),
{
    uuid::Uuid::from_u128(v).to_string()
}

/// `uuid::Uuid::new_v4()`: a random identity; nothing is promised of it.
#[verifier::external_body]
pub(crate) fn fresh_uuid() -> u128 {
    uuid::Uuid::new_v4().as_u128()
}

/// `chrono::Utc::now()` in milliseconds since the Unix epoch; nothing is
/// promised of it.
#[verifier::external_body]
pub(crate) fn now_millis() -> i64 {
    chrono::Utc::now().timestamp_millis()
}

// ---------- message chains ----------

pub open spec fn first_msg_index(list: Seq<MessageView>, id: MessageId, i: int) -> bool {
    &&& 0 <= i < list.len()
    &&& list[i].id == id
    &&& forall|j: int| 0 <= j < i ==> (#[trigger] list[j]).id != id
}

pub open spec fn has_msg(list: Seq<MessageView>, id: MessageId) -> bool {
    exists|i: int| 0 <= i < list.len() && (#[trigger] list[i]).id == id
}

/// Index of the first message with this id, or -1.
pub open spec fn msg_index(list: Seq<MessageView>, id: MessageId) -> int {
    if has_msg(list, id) {
        choose|i: int| first_msg_index(list, id, i)
    } else {
        -1
    }
}

/// The chain that ends at `cur`, root first, following parent links for at
/// most `steps` messages.
pub open spec fn walk(list: Seq<MessageView>, cur: MessageId, steps: nat) -> Seq<MessageView>
    decreases steps,
{
    if steps == 0 {
        Seq::empty()
    } else {
        let i = msg_index(list, cur);
        if i < 0 {
            Seq::empty()
        } else {
            match list[i].parent_id {
                None => seq![list[i]],
                Some(p) => walk(list, p, (steps - 1) as nat).push(list[i]),
            }
        }
    }
}

/// Active path of a session: all messages when no end is set, else the
/// chain ending at the set message.
pub open spec fn active_chain(list: Seq<MessageView>, end: Option<MessageId>) -> Seq<MessageView> {
    match end {
        None => list,
        Some(e) => walk(list, e, list.len()),
    }
}

pub open spec fn rev<T>(s: Seq<T>) -> Seq<T>
    decreases s.len(),
{
    if s.len() == 0 {
        s
    } else {
        seq![s.last()] + rev(s.drop_last())
    }
}

/// The first position holding an id is its `msg_index`.
pub proof fn lemma_first_index_is_msg_index(list: Seq<MessageView>, id: MessageId, i: int)
    requires
        first_msg_index(list, id, i),
    ensures
        msg_index(list, id) == i,
{
    assert(has_msg(list, id));
    let j = choose|j: int| first_msg_index(list, id, j);
    if j < i {
        assert(list[j].id != id);
    } else if j > i {
        assert(list[i].id != id);
    }
}

proof fn lemma_first_below(list: Seq<MessageView>, id: MessageId, w: int) -> (f: int)
    requires
        0 <= w < list.len(),
        list[w].id == id,
    ensures
        first_msg_index(list, id, f),
    decreases w,
{
    if exists|j: int| 0 <= j < w && (#[trigger] list[j]).id == id {
        let j = choose|j: int| 0 <= j < w && (#[trigger] list[j]).id == id;
        lemma_first_below(list, id, j)
    } else {
        w
    }
}

/// `msg_index` is -1 exactly for an id the list does not hold, and otherwise
/// the first position holding it.
pub proof fn lemma_msg_index_range(list: Seq<MessageView>, id: MessageId)
    ensures
        -1 <= msg_index(list, id) < list.len(),
        msg_index(list, id) >= 0 ==> first_msg_index(list, id, msg_index(list, id)),
        msg_index(list, id) < 0 <==> !has_msg(list, id),
{
    if has_msg(list, id) {
        let w = choose|i: int| 0 <= i < list.len() && (#[trigger] list[i]).id == id;
        let f = lemma_first_below(list, id, w);
        lemma_first_index_is_msg_index(list, id, f);
    }
}

/// No message of the session has this id, nor names it as its parent.
pub open spec fn id_unused(list: Seq<MessageView>, id: MessageId) -> bool {
    forall|i: int| 0 <= i < list.len() ==> (#[trigger] list[i]).id != id && list[i].parent_id != Some(id)
}

proof fn lemma_msg_index_push_other(list: Seq<MessageView>, m: MessageView, x: MessageId)
    requires
        x != m.id,
    ensures
        msg_index(list.push(m), x) == msg_index(list, x),
{
    let l2 = list.push(m);
    lemma_msg_index_range(list, x);
    lemma_msg_index_range(l2, x);
    if msg_index(list, x) >= 0 {
        let i = msg_index(list, x);
        assert(first_msg_index(l2, x, i)) by {
            assert forall|j: int| 0 <= j < i implies (#[trigger] l2[j]).id != x by {
                assert(l2[j] == list[j]);
            }
        }
        lemma_first_index_is_msg_index(l2, x, i);
    } else {
        assert(!has_msg(l2, x)) by {
            if has_msg(l2, x) {
                let w = choose|w: int| 0 <= w < l2.len() && (#[trigger] l2[w]).id == x;
                assert(w < list.len());
                assert(list[w].id == x);
            }
        }
    }
}

proof fn lemma_walk_push_other(list: Seq<MessageView>, m: MessageView, x: MessageId, steps: nat)
    requires
        x != m.id,
        id_unused(list, m.id),
    ensures
        walk(list.push(m), x, steps) == walk(list, x, steps),
    decreases steps,
{
    let l2 = list.push(m);
    if steps > 0 {
        lemma_msg_index_push_other(list, m, x);
        lemma_msg_index_range(list, x);
        let i = msg_index(list, x);
        if i >= 0 {
            assert(l2[i] == list[i]);
            match list[i].parent_id {
                None => {},
                Some(p) => {
                    assert(p != m.id);
                    lemma_walk_push_other(list, m, p, (steps - 1) as nat);
                },
            }
        }
    }
}

/// Appending a message with an unused id under the end of the active path,
/// and making it the new end, extends the active path by exactly that
/// message.
pub proof fn lemma_append_extends_path(list: Seq<MessageView>, end: MessageId, m: MessageView)
    requires
        has_msg(list, end),
        m.parent_id == Some(end),
        id_unused(list, m.id),
    ensures
        active_chain(list.push(m), Some(m.id)) == active_chain(list, Some(end)).push(m),
{
    let l2 = list.push(m);
    assert(first_msg_index(l2, m.id, list.len() as int)) by {
        assert forall|j: int| 0 <= j < list.len() implies (#[trigger] l2[j]).id != m.id by {
            assert(l2[j] == list[j]);
        }
    }
    lemma_first_index_is_msg_index(l2, m.id, list.len() as int);
    let w = choose|w: int| 0 <= w < list.len() && (#[trigger] list[w]).id == end;
    assert(end != m.id);
    lemma_walk_push_other(list, m, end, list.len());
    assert(walk(l2, m.id, l2.len()) == walk(l2, end, list.len()).push(m));
}

/// The first message of an empty path (no parent, unused id), made the end
/// of the active path, is the whole path.
pub proof fn lemma_first_message_starts_path(list: Seq<MessageView>, m: MessageView)
    requires
        m.parent_id is None,
        id_unused(list, m.id),
    ensures
        active_chain(list.push(m), Some(m.id)) == seq![m],
{
    let l2 = list.push(m);
    assert(first_msg_index(l2, m.id, list.len() as int)) by {
        assert forall|j: int| 0 <= j < list.len() implies (#[trigger] l2[j]).id != m.id by {
            assert(l2[j] == list[j]);
        }
    }
    lemma_first_index_is_msg_index(l2, m.id, list.len() as int);
}

pub open spec fn views(v: Seq<Message>) -> Seq<MessageView> {
    v.map_values(|m: Message| m@)
}

fn find_message(list: &Vec<Message>, id: MessageId) -> (r: Option<usize>)
    ensures
        match r {
            Some(i) => first_msg_index(views(list@), id, i as int) && msg_index(views(list@), id) == i,
            None => !has_msg(views(list@), id) && msg_index(views(list@), id) == -1,
        },
{
    let mut i: usize = 0;
    while i < list.len()
        invariant
            i <= list@.len(),
            forall|j: int| 0 <= j < i ==> (#[trigger] views(list@)[j]).id != id,
        decreases list.len() - i,
    {
        if list[i].id == id {
            proof {
                assert(views(list@)[i as int].id == id);
                lemma_first_index_is_msg_index(views(list@), id, i as int);
            }
            return Some(i);
        }
        assert(views(list@)[i as int].id != id);
        i = i + 1;
    }
    None
}

fn copy_all(list: &Vec<Message>) -> (r: Vec<Message>)
    ensures
        views(r@) == views(list@),
{
    let mut out: Vec<Message> = Vec::new();
    let mut i: usize = 0;
    while i < list.len()
        invariant
            i <= list@.len(),
            views(out@) == views(list@.subrange(0, i as int)),
        decreases list.len() - i,
    {
        let m = list[i].copy();
        let ghost before = out@;
        out.push(m);
        proof {
            assert(views(out@) =~= views(before).push(m@));
            assert(views(list@.subrange(0, i + 1)) =~= views(list@.subrange(0, i as int)).push(list@[i as int]@));
        }
        i = i + 1;
    }
    proof {
        assert(list@.subrange(0, list@.len() as int) =~= list@);
    }
    out
}

/// The active path, copied out.
pub fn chain_of(list: &Vec<Message>, end: Option<MessageId>) -> (r: Vec<Message>)
    ensures
        views(r@) == active_chain(views(list@), end),
{
    let end = match end {
        None => return copy_all(list),
        Some(e) => e,
    };
    let ghost l = views(list@);
    let n = list.len();
    let mut acc: Vec<Message> = Vec::new();
    let mut cur = end;
    let mut steps: usize = n;
    let mut done = false;
    proof {
        assert(rev(views(acc@)) =~= Seq::<MessageView>::empty());
        assert(walk(l, end, n as nat) + Seq::<MessageView>::empty() =~= walk(l, end, n as nat));
    }
    while !done && steps > 0
        invariant
            l == views(list@),
            n == list@.len(),
            steps <= n,
            done ==> walk(l, end, n as nat) == rev(views(acc@)),
            !done ==> walk(l, end, n as nat) == walk(l, cur, steps as nat) + rev(views(acc@)),
        decreases steps as int + if done { 0int } else { 1int },
    {
        match find_message(list, cur) {
            None => {
                proof {
                    assert(walk(l, cur, steps as nat) == Seq::<MessageView>::empty());
                    assert(Seq::<MessageView>::empty() + rev(views(acc@)) =~= rev(views(acc@)));
                }
                done = true;
            },
            Some(i) => {
                let m = list[i].copy();
                let parent = list[i].parent_id;
                let ghost before = views(acc@);
                acc.push(m);
                proof {
                    assert(views(acc@) =~= before.push(m@));
                    assert(views(acc@).drop_last() =~= before);
                    assert(rev(views(acc@)) == seq![m@] + rev(before));
                    assert(l[i as int] == m@);
                }
                match parent {
                    None => {
                        proof {
                            assert(walk(l, cur, steps as nat) == seq![m@]);
                            assert(seq![m@] + rev(before) =~= rev(views(acc@)));
                        }
                        done = true;
                    },
                    Some(p) => {
                        proof {
                            let w = walk(l, p, (steps - 1) as nat);
                            assert(walk(l, cur, steps as nat) == w.push(m@));
                            assert(w.push(m@) + rev(before) =~= w + (seq![m@] + rev(before)));
                        }
                        cur = p;
                        steps = steps - 1;
                    },
                }
            },
        }
    }
    proof {
        if !done {
            assert(steps == 0);
            assert(walk(l, cur, 0) == Seq::<MessageView>::empty());
            assert(Seq::<MessageView>::empty() + rev(views(acc@)) =~= rev(views(acc@)));
        }
    }
    // reverse the accumulated chain: root first
    let mut out: Vec<Message> = Vec::new();
    let mut k: usize = acc.len();
    proof {
        assert(views(acc@).subrange(0, acc@.len() as int) =~= views(acc@));
        assert(views(out@) =~= Seq::<MessageView>::empty());
    }
    while k > 0
        invariant
            k <= acc@.len(),
            rev(views(acc@)) == views(out@) + rev(views(acc@).subrange(0, k as int)),
        decreases k,
    {
        let m = acc[k - 1].copy();
        let ghost a = views(acc@).subrange(0, k as int);
        let ghost before = views(out@);
        out.push(m);
        proof {
            assert(a.last() == m@);
            assert(a.drop_last() =~= views(acc@).subrange(0, k - 1));
            assert(rev(a) == seq![m@] + rev(a.drop_last()));
            assert(views(out@) =~= before.push(m@));
            assert(before + (seq![m@] + rev(a.drop_last())) =~= views(out@) + rev(a.drop_last()));
        }
        k = k - 1;
    }
    proof {
        assert(views(acc@).subrange(0, 0) =~= Seq::<MessageView>::empty());
        assert(views(out@) + Seq::<MessageView>::empty() =~= views(out@));
    }
    out
}


// ---------- sessions ----------

/// One stored session: the key it is stored under, its metadata and all its
/// messages (every branch), in the order they were appended.
pub struct SessionEntry {
    key: SessionKey,
    meta: SessionMeta,
    messages: Vec<Message>,
}

pub struct EntryView {
    pub key: SessionKey,
    pub meta: SessionMetaView,
    pub messages: Seq<MessageView>,
}

/// In-memory storage service (sessions and mistake notebook).
pub struct MemoryStorage {
    sessions: Vec<SessionEntry>,
    mistakes: Vec<crate::mistake::Mistake>,
}

pub closed spec fn entry_view(e: SessionEntry) -> EntryView {
    EntryView { key: e.key, meta: e.meta@, messages: views(e.messages@) }
}

pub open spec fn key_at(s: Seq<EntryView>, key: SessionKey, i: int) -> bool {
    0 <= i < s.len() && s[i].key == key
}

pub open spec fn has_session(s: Seq<EntryView>, key: SessionKey) -> bool {
    exists|i: int| key_at(s, key, i)
}

/// Keys are distinct.
pub open spec fn keys_distinct(s: Seq<EntryView>) -> bool {
    forall|i: int, j: int| 0 <= i < s.len() && 0 <= j < s.len() && i != j ==> s[i].key != s[j].key
}

/// Mistake ids are distinct.
pub open spec fn mistake_ids_distinct(m: Seq<crate::mistake::MistakeView>) -> bool {
    forall|i: int, j: int| 0 <= i < m.len() && 0 <= j < m.len() && i != j ==> m[i].id != m[j].id
}

/// The metadata with a new title: trimmed, and absent when blank.
pub open spec fn titled(meta: SessionMetaView, title: Option<Seq<char>>) -> SessionMetaView {
    SessionMetaView {
        title: match title {
            Some(t) => if trim(t).len() > 0 {
                Some(trim(t))
            } else {
                None
            },
            None => None,
        },
        ..meta
    }
}

pub open spec fn not_in_path_message() -> Seq<char> {
    "消息不在活跃路径"@
}

pub open spec fn only_user_message() -> Seq<char> {
    "只能编辑 user 消息"@
}

pub open spec fn no_message_message() -> Seq<char> {
    "消息不存在"@
}

pub open spec fn no_tail_message() -> Seq<char> {
    "保留段首条不存在"@
}

/// The edited copy of a user message: same parent and attachments, new id,
/// time and text, no display text.
pub open spec fn edited_user(original: MessageView, id: MessageId, at: i64, text: Seq<char>) -> MessageView {
    MessageView {
        id,
        parent_id: original.parent_id,
        kind: match original.kind {
            KindView::User { attachment_refs, .. } => KindView::User { text, display_text: None, attachment_refs },
            k => k,
        },
        created_at: at,
    }
}

impl MemoryStorage {
    pub closed spec fn sessions(&self) -> Seq<EntryView> {
        self.sessions@.map_values(|e: SessionEntry| entry_view(e))
    }

    pub closed spec fn mistakes(&self) -> Seq<crate::mistake::MistakeView> {
        self.mistakes@.map_values(|m: crate::mistake::Mistake| m@)
    }

    /// Well-formed: session keys and mistake ids are distinct.
    pub open spec fn wf(&self) -> bool {
        keys_distinct(self.sessions()) && mistake_ids_distinct(self.mistakes())
    }

    pub fn new() -> (s: MemoryStorage)
        ensures
            s.sessions() == Seq::<EntryView>::empty(),
            s.mistakes() == Seq::<crate::mistake::MistakeView>::empty(),
            s.wf(),
    {
        let s = MemoryStorage { sessions: Vec::new(), mistakes: Vec::new() };
        assert(s.sessions() =~= Seq::<EntryView>::empty());
        assert(s.mistakes() =~= Seq::<crate::mistake::MistakeView>::empty());
        s
    }

    fn index_of(&self, key: &SessionKey) -> (r: Option<usize>)
        requires
            self.wf(),
        ensures
            match r {
                Some(i) => key_at(self.sessions(), *key, i as int) && forall|j: int|
                    key_at(self.sessions(), *key, j) ==> j == i,
                None => !has_session(self.sessions(), *key),
            },
    {
        let mut i: usize = 0;
        while i < self.sessions.len()
            invariant
                self.wf(),
                i <= self.sessions@.len(),
                forall|j: int| 0 <= j < i ==> (#[trigger] self.sessions@[j]).key != *key,
            decreases self.sessions.len() - i,
        {
            if self.sessions[i].key == *key {
                proof {
                    let s = self.sessions();
                    assert(s[i as int].key == *key);
                    assert forall|j: int| key_at(s, *key, j) implies j == i as int by {
                        if j != i as int {
                            assert(s[j].key != s[i as int].key);
                        }
                    }
                }
                return Some(i);
            }
            i = i + 1;
        }
        proof {
            assert forall|j: int| !key_at(self.sessions(), *key, j) by {
                if 0 <= j < self.sessions@.len() {
                    assert(self.sessions()[j].key == self.sessions@[j].key);
                }
            }
        }
        None
    }

    pub fn create_session(&mut self, key: &SessionKey, meta: &SessionMeta) -> (r: Result<(), StorageError>)
        requires
            old(self).wf(),
        ensures
            final(self).wf(),
            final(self).mistakes() == old(self).mistakes(),
            has_session(old(self).sessions(), *key) ==> (r matches Err(StorageError::AlreadyExists(m)) && m@
                == uuid_text(key.0) && final(self).sessions() == old(self).sessions()),
            !has_session(old(self).sessions(), *key) ==> (r is Ok && final(self).sessions()
                == old(self).sessions().push(EntryView { key: *key, meta: meta@, messages: Seq::empty() })),
    {
        if self.index_of(key).is_some() {
            return Err(StorageError::AlreadyExists(uuid_string(key.0)));
        }
        let msgs: Vec<Message> = Vec::new();
        assert(views(msgs@) =~= Seq::<MessageView>::empty());
        let entry = SessionEntry { key: *key, meta: meta.copy(), messages: msgs };
        let ghost before = self.sessions();
        self.sessions.push(entry);
        proof {
            assert(self.sessions() =~= before.push(entry_view(entry)));
            assert(entry_view(entry).messages =~= Seq::<MessageView>::empty());
            let s = self.sessions();
            assert forall|a: int, b: int| 0 <= a < s.len() && 0 <= b < s.len() && a != b implies s[a].key
                != s[b].key by {
                if a < before.len() && b < before.len() {
                    assert(before[a].key != before[b].key);
                } else if a < before.len() {
                    assert(!key_at(before, *key, a));
                } else {
                    assert(!key_at(before, *key, b));
                }
            }
        }
        Ok(())
    }

    pub fn get_session(&self, key: &SessionKey) -> (r: Option<SessionMeta>)
        requires
            self.wf(),
        ensures
            match r {
                Some(m) => exists|i: int| key_at(self.sessions(), *key, i) && m@ == self.sessions()[i].meta,
                None => !has_session(self.sessions(), *key),
            },
    {
        match self.index_of(key) {
            Some(i) => Some(self.sessions[i].meta.copy()),
            None => None,
        }
    }

    /// Metadata of every session, in storage order.
    pub fn list_sessions(&self) -> (r: Vec<SessionMeta>)
        ensures
            r@.map_values(|m: SessionMeta| m@) == self.sessions().map_values(|e: EntryView| e.meta),
    {
        let mut out: Vec<SessionMeta> = Vec::new();
        let mut i: usize = 0;
        while i < self.sessions.len()
            invariant
                i <= self.sessions@.len(),
                out@.map_values(|m: SessionMeta| m@) == self.sessions().subrange(0, i as int).map_values(|e: EntryView| e.meta),
            decreases self.sessions.len() - i,
        {
            let m = self.sessions[i].meta.copy();
            let ghost before = out@;
            out.push(m);
            proof {
                assert(out@.map_values(|m: SessionMeta| m@) =~= before.map_values(|m: SessionMeta| m@).push(m@));
                assert(self.sessions().subrange(0, i + 1).map_values(|e: EntryView| e.meta) =~= self.sessions().subrange(
                    0,
                    i as int,
                ).map_values(|e: EntryView| e.meta).push(self.sessions()[i as int].meta));
            }
            i = i + 1;
        }
        proof {
            assert(self.sessions().subrange(0, self.sessions@.len() as int) =~= self.sessions());
        }
        out
    }

    pub fn append_message(&mut self, key: &SessionKey, msg: &Message) -> (r: Result<(), StorageError>)
        requires
            old(self).wf(),
        ensures
            final(self).wf(),
            final(self).mistakes() == old(self).mistakes(),
            !has_session(old(self).sessions(), *key) ==> (r == Err::<(), StorageError>(StorageError::SessionNotFound(*key))
                && final(self).sessions() == old(self).sessions()),
            forall|i: int| key_at(old(self).sessions(), *key, i) ==> r is Ok && final(self).sessions()
                == old(self).sessions().update(
                i,
                EntryView { messages: old(self).sessions()[i].messages.push(msg@), ..old(self).sessions()[i] },
            ),
    {
        let i = match self.index_of(key) {
            None => return Err(StorageError::SessionNotFound(*key)),
            Some(i) => i,
        };
        let ghost before = self.sessions();
        let mut entry = self.sessions.remove(i);
        let ghost mid = self.sessions@;
        entry.messages.push(msg.copy());
        self.sessions.insert(i, entry);
        proof {
            assert(self.sessions@ =~= old(self).sessions@.update(i as int, entry));
            assert(views(entry.messages@) =~= before[i as int].messages.push(msg@));
            assert(self.sessions() =~= before.update(
                i as int,
                EntryView { messages: before[i as int].messages.push(msg@), ..before[i as int] },
            ));
        }
        Ok(())
    }

    /// The active path of a session.
    pub fn read_path(&self, key: &SessionKey) -> (r: Result<Vec<Message>, StorageError>)
        requires
            self.wf(),
        ensures
            !has_session(self.sessions(), *key) ==> r == Err::<Vec<Message>, StorageError>(
                StorageError::SessionNotFound(*key),
            ),
            forall|i: int| key_at(self.sessions(), *key, i) ==> (r matches Ok(v) && views(v@) == active_chain(
                self.sessions()[i].messages,
                self.sessions()[i].meta.active_path,
            )),
    {
        match self.index_of(key) {
            None => Err(StorageError::SessionNotFound(*key)),
            Some(i) => Ok(chain_of(&self.sessions[i].messages, self.sessions[i].meta.active_path)),
        }
    }

    /// All messages of a session (every branch); none for an unknown key.
    pub fn read_all(&self, key: &SessionKey) -> (r: Vec<Message>)
        requires
            self.wf(),
        ensures
            !has_session(self.sessions(), *key) ==> r@.len() == 0,
            forall|i: int| key_at(self.sessions(), *key, i) ==> views(r@) == self.sessions()[i].messages,
    {
        match self.index_of(key) {
            None => Vec::new(),
            Some(i) => copy_all(&self.sessions[i].messages),
        }
    }
}


pub open spec fn with_meta(e: EntryView, meta: SessionMetaView) -> EntryView {
    EntryView { meta, ..e }
}

proof fn lemma_update_keeps_keys(s: Seq<EntryView>, i: int, e: EntryView)
    requires
        keys_distinct(s),
        0 <= i < s.len(),
        e.key == s[i].key,
    ensures
        keys_distinct(s.update(i, e)),
{
    let t = s.update(i, e);
    assert forall|a: int, b: int| 0 <= a < t.len() && 0 <= b < t.len() && a != b implies t[a].key != t[b].key by {
        assert(t[a].key == s[a].key);
        assert(t[b].key == s[b].key);
    }
}

impl MemoryStorage {
    /// Replaces the metadata of the entry at `i`.
    fn put_meta(&mut self, i: usize, meta: SessionMeta)
        requires
            old(self).wf(),
            i < old(self).sessions().len(),
        ensures
            final(self).wf(),
            final(self).mistakes() == old(self).mistakes(),
            final(self).sessions() == old(self).sessions().update(
                i as int,
                with_meta(old(self).sessions()[i as int], meta@),
            ),
    {
        let ghost before = self.sessions();
        let mut e = self.sessions.remove(i);
        e.meta = meta;
        self.sessions.insert(i, e);
        proof {
            assert(self.sessions@ =~= old(self).sessions@.update(i as int, e));
            assert(self.sessions() =~= before.update(i as int, entry_view(e)));
            lemma_update_keeps_keys(before, i as int, entry_view(e));
        }
    }

    /// Sets the end of the active path (`None`: the linear chain of all
    /// messages).
    pub fn set_active_path(&mut self, key: &SessionKey, message_id: Option<MessageId>) -> (r: Result<(), StorageError>)
        requires
            old(self).wf(),
        ensures
            final(self).wf(),
            final(self).mistakes() == old(self).mistakes(),
            !has_session(old(self).sessions(), *key) ==> (r == Err::<(), StorageError>(StorageError::SessionNotFound(*key))
                && final(self).sessions() == old(self).sessions()),
            forall|i: int| key_at(old(self).sessions(), *key, i) ==> r is Ok && final(self).sessions()
                == old(self).sessions().update(
                i,
                with_meta(old(self).sessions()[i], SessionMetaView { active_path: message_id, ..old(self).sessions()[i].meta }),
            ),
    {
        let i = match self.index_of(key) {
            None => return Err(StorageError::SessionNotFound(*key)),
            Some(i) => i,
        };
        let mut m = self.sessions[i].meta.copy();
        m.active_path = message_id;
        self.put_meta(i, m);
        Ok(())
    }

    /// Sets the learning goal.
    pub fn set_goal(&mut self, key: &SessionKey, goal: &Goal) -> (r: Result<(), StorageError>)
        requires
            old(self).wf(),
        ensures
            final(self).wf(),
            final(self).mistakes() == old(self).mistakes(),
            !has_session(old(self).sessions(), *key) ==> (r == Err::<(), StorageError>(StorageError::SessionNotFound(*key))
                && final(self).sessions() == old(self).sessions()),
            forall|i: int| key_at(old(self).sessions(), *key, i) ==> r is Ok && final(self).sessions()
                == old(self).sessions().update(
                i,
                with_meta(old(self).sessions()[i], SessionMetaView { goal: Some(goal.text@), ..old(self).sessions()[i].meta }),
            ),
    {
        let i = match self.index_of(key) {
            None => return Err(StorageError::SessionNotFound(*key)),
            Some(i) => i,
        };
        let mut m = self.sessions[i].meta.copy();
        m.goal = Some(goal.copy());
        self.put_meta(i, m);
        Ok(())
    }

    /// Sets the title: trimmed, and cleared when absent or blank.
    pub fn set_title(&mut self, key: &SessionKey, title: Option<&str>) -> (r: Result<(), StorageError>)
        requires
            old(self).wf(),
        ensures
            final(self).wf(),
            final(self).mistakes() == old(self).mistakes(),
            !has_session(old(self).sessions(), *key) ==> (r == Err::<(), StorageError>(StorageError::SessionNotFound(*key))
                && final(self).sessions() == old(self).sessions()),
            forall|i: int| key_at(old(self).sessions(), *key, i) ==> r is Ok && final(self).sessions()
                == old(self).sessions().update(
                i,
                with_meta(
                    old(self).sessions()[i],
                    titled(
                        old(self).sessions()[i].meta,
                        match title {
                            Some(t) => Some(t@),
                            None => None,
                        },
                    ),
                ),
            ),
    {
        let i = match self.index_of(key) {
            None => return Err(StorageError::SessionNotFound(*key)),
            Some(i) => i,
        };
        let mut m = self.sessions[i].meta.copy();
        m.title = match title {
            Some(t) => {
                let t = trim_str(t);
                if t.unicode_len() > 0 {
                    Some(t)
                } else {
                    None
                }
            },
            None => None,
        };
        self.put_meta(i, m);
        Ok(())
    }

    /// Archives a session at time `now`.
    pub fn archive_at(&mut self, key: &SessionKey, now: i64) -> (r: Result<(), StorageError>)
        requires
            old(self).wf(),
        ensures
            final(self).wf(),
            final(self).mistakes() == old(self).mistakes(),
            !has_session(old(self).sessions(), *key) ==> (r == Err::<(), StorageError>(StorageError::SessionNotFound(*key))
                && final(self).sessions() == old(self).sessions()),
            forall|i: int| key_at(old(self).sessions(), *key, i) ==> r is Ok && final(self).sessions()
                == old(self).sessions().update(
                i,
                with_meta(
                    old(self).sessions()[i],
                    SessionMetaView {
                        status: SessionStatus::Archived,
                        archived_at: Some(now),
                        ..old(self).sessions()[i].meta
                    },
                ),
            ),
    {
        let i = match self.index_of(key) {
            None => return Err(StorageError::SessionNotFound(*key)),
            Some(i) => i,
        };
        let mut m = self.sessions[i].meta.copy();
        m.status = SessionStatus::Archived;
        m.archived_at = Some(now);
        self.put_meta(i, m);
        Ok(())
    }

    /// Archives a session now (the clock decides the archive time).
    pub fn archive(&mut self, key: &SessionKey) -> (r: Result<(), StorageError>)
        requires
            old(self).wf(),
        ensures
            final(self).wf(),
            final(self).mistakes() == old(self).mistakes(),
            !has_session(old(self).sessions(), *key) ==> (r == Err::<(), StorageError>(StorageError::SessionNotFound(*key))
                && final(self).sessions() == old(self).sessions()),
            forall|i: int| key_at(old(self).sessions(), *key, i) ==> r is Ok && final(self).sessions()[i].meta.archived_at is Some
                && final(self).sessions() == old(self).sessions().update(
                i,
                with_meta(
                    old(self).sessions()[i],
                    SessionMetaView {
                        status: SessionStatus::Archived,
                        archived_at: final(self).sessions()[i].meta.archived_at,
                        ..old(self).sessions()[i].meta
                    },
                ),
            ),
    {
        let now = now_millis();
        self.archive_at(key, now)
    }

    /// Makes a session active again.
    pub fn activate(&mut self, key: &SessionKey) -> (r: Result<(), StorageError>)
        requires
            old(self).wf(),
        ensures
            final(self).wf(),
            final(self).mistakes() == old(self).mistakes(),
            !has_session(old(self).sessions(), *key) ==> (r == Err::<(), StorageError>(StorageError::SessionNotFound(*key))
                && final(self).sessions() == old(self).sessions()),
            forall|i: int| key_at(old(self).sessions(), *key, i) ==> r is Ok && final(self).sessions()
                == old(self).sessions().update(
                i,
                with_meta(
                    old(self).sessions()[i],
                    SessionMetaView { status: SessionStatus::Active, archived_at: None, ..old(self).sessions()[i].meta },
                ),
            ),
    {
        let i = match self.index_of(key) {
            None => return Err(StorageError::SessionNotFound(*key)),
            Some(i) => i,
        };
        let mut m = self.sessions[i].meta.copy();
        m.status = SessionStatus::Active;
        m.archived_at = None;
        self.put_meta(i, m);
        Ok(())
    }

    /// Records the time of the last activity.
    pub fn set_last_activity(&mut self, key: &SessionKey, at: i64) -> (r: Result<(), StorageError>)
        requires
            old(self).wf(),
        ensures
            final(self).wf(),
            final(self).mistakes() == old(self).mistakes(),
            !has_session(old(self).sessions(), *key) ==> (r == Err::<(), StorageError>(StorageError::SessionNotFound(*key))
                && final(self).sessions() == old(self).sessions()),
            forall|i: int| key_at(old(self).sessions(), *key, i) ==> r is Ok && final(self).sessions()
                == old(self).sessions().update(
                i,
                with_meta(old(self).sessions()[i], SessionMetaView { last_activity_at: at, ..old(self).sessions()[i].meta }),
            ),
    {
        let i = match self.index_of(key) {
            None => return Err(StorageError::SessionNotFound(*key)),
            Some(i) => i,
        };
        let mut m = self.sessions[i].meta.copy();
        m.last_activity_at = at;
        self.put_meta(i, m);
        Ok(())
    }

    /// Removes a session with all its messages.
    pub fn remove_session(&mut self, key: &SessionKey) -> (r: Result<(), StorageError>)
        requires
            old(self).wf(),
        ensures
            final(self).wf(),
            final(self).mistakes() == old(self).mistakes(),
            !has_session(old(self).sessions(), *key) ==> (r == Err::<(), StorageError>(StorageError::SessionNotFound(*key))
                && final(self).sessions() == old(self).sessions()),
            forall|i: int| key_at(old(self).sessions(), *key, i) ==> r is Ok && final(self).sessions()
                == old(self).sessions().remove(i),
    {
        let i = match self.index_of(key) {
            None => return Err(StorageError::SessionNotFound(*key)),
            Some(i) => i,
        };
        let ghost before = self.sessions();
        let _gone = self.sessions.remove(i);
        proof {
            assert(self.sessions() =~= before.remove(i as int));
            let s = self.sessions();
            assert forall|a: int, b: int| 0 <= a < s.len() && 0 <= b < s.len() && a != b implies s[a].key
                != s[b].key by {
                let a0 = if a < i { a } else { a + 1 };
                let b0 = if b < i { b } else { b + 1 };
                assert(s[a] == before[a0]);
                assert(s[b] == before[b0]);
            }
        }
        Ok(())
    }
}


/// `r` is an internal error with message `msg`.
pub open spec fn is_internal<T>(r: Result<T, StorageError>, msg: Seq<char>) -> bool {
    r matches Err(StorageError::Internal(m)) && m@ == msg
}

/// Whether a message view is a user message.
pub open spec fn is_user(m: MessageView) -> bool {
    m.kind is User
}

/// The stored session after an edit branch: the edited copy appended and
/// made the end of the active path.
pub open spec fn branched(e: EntryView, edited: MessageView) -> EntryView {
    EntryView {
        messages: e.messages.push(edited),
        meta: SessionMetaView { active_path: Some(edited.id), ..e.meta },
        ..e
    }
}

/// The stored session after a compaction splice: the kept tail's first
/// message re-parented under the summary, the summary appended.
pub open spec fn spliced(e: EntryView, k: int, summary: MessageView) -> EntryView {
    EntryView {
        messages: e.messages.update(k, MessageView { parent_id: Some(summary.id), ..e.messages[k] }).push(summary),
        ..e
    }
}

impl MemoryStorage {
    /// Edits a user message on the active path: a copy with id `new_id`,
    /// time `now` and text `text` (same parent, same attachments) is appended
    /// and becomes the end of the active path; the messages after the edit
    /// point stay stored but leave the active path.  Returns the new active
    /// path.
    pub fn derive_branch_with(
        &mut self,
        key: &SessionKey,
        message_id: MessageId,
        text: &str,
        new_id: MessageId,
        now: i64,
    ) -> (r: Result<Vec<Message>, StorageError>)
        requires
            old(self).wf(),
        ensures
            final(self).wf(),
            final(self).mistakes() == old(self).mistakes(),
            !has_session(old(self).sessions(), *key) ==> (r == Err::<Vec<Message>, StorageError>(
                StorageError::SessionNotFound(*key),
            ) && final(self).sessions() == old(self).sessions()),
            forall|i: int| #[trigger]
                key_at(old(self).sessions(), *key, i) ==> {
                    let e = old(self).sessions()[i];
                    let chain = active_chain(e.messages, e.meta.active_path);
                    let k = msg_index(chain, message_id);
                    if k < 0 {
                        is_internal(r, not_in_path_message())
                            && final(self).sessions() == old(self).sessions()
                    } else if !is_user(chain[k]) {
                        is_internal(r, only_user_message())
                            && final(self).sessions() == old(self).sessions()
                    } else {
                        let edited = edited_user(chain[k], new_id, now, text@);
                        r matches Ok(p) && views(p@) == chain.take(k).push(edited) && final(self).sessions()
                            == old(self).sessions().update(i, branched(e, edited))
                    }
                },
    {
        let i = match self.index_of(key) {
            None => return Err(StorageError::SessionNotFound(*key)),
            Some(i) => i,
        };
        let chain = chain_of(&self.sessions[i].messages, self.sessions[i].meta.active_path);
        let k = match find_message(&chain, message_id) {
            None => return Err(StorageError::Internal(owned("消息不在活跃路径"))),
            Some(k) => k,
        };
        let original = &chain[k];
        let kind = match &original.kind {
            MessageKind::User { attachment_refs, .. } => MessageKind::User {
                text: owned(text),
                display_text: None,
                attachment_refs: crate::message::copy_refs(attachment_refs),
            },
            _ => return Err(StorageError::Internal(owned("只能编辑 user 消息"))),
        };
        let edited = Message { id: new_id, parent_id: original.parent_id, kind, created_at: now };
        let ghost ev = edited@;
        // the new active path: the chain before the edit point, then the copy
        let mut path: Vec<Message> = Vec::new();
        let mut j: usize = 0;
        while j < k
            invariant
                j <= k,
                k < chain@.len(),
                views(path@) == views(chain@).take(j as int),
            decreases k - j,
        {
            let m = chain[j].copy();
            let ghost before = views(path@);
            path.push(m);
            proof {
                assert(views(path@) =~= before.push(m@));
                assert(views(chain@).take(j + 1) =~= views(chain@).take(j as int).push(views(chain@)[j as int]));
            }
            j = j + 1;
        }
        let ghost prefix = views(path@);
        path.push(edited.copy());
        proof {
            assert(views(path@) =~= prefix.push(ev));
        }
        let ghost before = self.sessions();
        let mut e = self.sessions.remove(i);
        e.messages.push(edited);
        e.meta.active_path = Some(new_id);
        proof {
            assert(views(e.messages@) =~= before[i as int].messages.push(ev));
            assert(entry_view(e) == branched(before[i as int], ev));
        }
        self.sessions.insert(i, e);
        proof {
            assert(self.sessions@ =~= old(self).sessions@.update(i as int, e));
            assert(self.sessions() =~= before.update(i as int, entry_view(e)));
            lemma_update_keeps_keys(before, i as int, entry_view(e));
        }
        Ok(path)
    }

    /// Edits a user message on the active path, with a fresh message id and
    /// the current time; see `derive_branch_with`.
    pub fn derive_branch(&mut self, key: &SessionKey, message_id: MessageId, text: &str) -> (r: Result<
        Vec<Message>,
        StorageError,
    >)
        requires
            old(self).wf(),
        ensures
            final(self).wf(),
            final(self).mistakes() == old(self).mistakes(),
            !has_session(old(self).sessions(), *key) ==> (r == Err::<Vec<Message>, StorageError>(
                StorageError::SessionNotFound(*key),
            ) && final(self).sessions() == old(self).sessions()),
            forall|i: int| #[trigger]
                key_at(old(self).sessions(), *key, i) ==> {
                    let e = old(self).sessions()[i];
                    let chain = active_chain(e.messages, e.meta.active_path);
                    let k = msg_index(chain, message_id);
                    if k < 0 {
                        is_internal(r, not_in_path_message())
                            && final(self).sessions() == old(self).sessions()
                    } else if !is_user(chain[k]) {
                        is_internal(r, only_user_message())
                            && final(self).sessions() == old(self).sessions()
                    } else {
                        r matches Ok(p) && p@.len() == k + 1 && {
                            let edited = views(p@).last();
                            &&& edited == edited_user(chain[k], edited.id, edited.created_at, text@)
                            &&& views(p@) == chain.take(k).push(edited)
                            &&& final(self).sessions() == old(self).sessions().update(i, branched(e, edited))
                        }
                    }
                },
    {
        let id = MessageId(fresh_uuid());
        let now = now_millis();
        let r = self.derive_branch_with(key, message_id, text, id, now);
        proof {
            assert forall|i: int| #[trigger] key_at(old(self).sessions(), *key, i) implies {
                let e = old(self).sessions()[i];
                let chain = active_chain(e.messages, e.meta.active_path);
                let k = msg_index(chain, message_id);
                k >= 0 && is_user(chain[k]) ==> (r matches Ok(p) && p@.len() == k + 1 && views(p@).last()
                    == edited_user(chain[k], id, now, text@))
            } by {
                let e = old(self).sessions()[i];
                let chain = active_chain(e.messages, e.meta.active_path);
                lemma_msg_index_range(chain, message_id);
            }
        }
        r
    }

    /// Makes the chain that ends at `message_id` the active path and returns
    /// it.  A message that the session does not hold (or an unknown session)
    /// is an internal error.
    pub fn switch_branch(&mut self, key: &SessionKey, message_id: MessageId) -> (r: Result<Vec<Message>, StorageError>)
        requires
            old(self).wf(),
        ensures
            final(self).wf(),
            final(self).mistakes() == old(self).mistakes(),
            !has_session(old(self).sessions(), *key) ==> (is_internal(r, no_message_message()) && final(self).sessions() == old(self).sessions()),
            forall|i: int| #[trigger]
                key_at(old(self).sessions(), *key, i) ==> {
                    let e = old(self).sessions()[i];
                    if !has_msg(e.messages, message_id) {
                        is_internal(r, no_message_message())
                            && final(self).sessions() == old(self).sessions()
                    } else {
                        &&& r matches Ok(p) && views(p@) == active_chain(e.messages, Some(message_id))
                        &&& final(self).sessions() == old(self).sessions().update(
                            i,
                            with_meta(e, SessionMetaView { active_path: Some(message_id), ..e.meta }),
                        )
                        // what was returned is what `read_path` now gives
                        &&& r matches Ok(p) && views(p@) == active_chain(
                            final(self).sessions()[i].messages,
                            final(self).sessions()[i].meta.active_path,
                        )
                    }
                },
    {
        let all = self.read_all(key);
        match find_message(&all, message_id) {
            None => {
                return Err(StorageError::Internal(owned("消息不存在")));
            },
            Some(_) => {},
        }
        let chain = chain_of(&all, Some(message_id));
        let i = match self.index_of(key) {
            None => {
                proof {
                    assert(all@.len() == 0);
                }
                return Err(StorageError::Internal(owned("消息不存在")));
            },
            Some(i) => i,
        };
        let mut m = self.sessions[i].meta.copy();
        m.active_path = Some(message_id);
        self.put_meta(i, m);
        Ok(chain)
    }

    /// Splices a compaction summary in: the message `tail_start` (first of
    /// the kept tail) is re-parented under the summary, and the summary is
    /// appended, so that the active path becomes summary, kept tail, ...
    pub fn splice_compaction(&mut self, key: &SessionKey, summary: &Message, tail_start: MessageId) -> (r: Result<
        (),
        StorageError,
    >)
        requires
            old(self).wf(),
        ensures
            final(self).wf(),
            final(self).mistakes() == old(self).mistakes(),
            !has_session(old(self).sessions(), *key) ==> (r == Err::<(), StorageError>(StorageError::SessionNotFound(*key))
                && final(self).sessions() == old(self).sessions()),
            forall|i: int| #[trigger]
                key_at(old(self).sessions(), *key, i) ==> {
                    let e = old(self).sessions()[i];
                    let k = msg_index(e.messages, tail_start);
                    if k < 0 {
                        is_internal(r, no_tail_message())
                            && final(self).sessions() == old(self).sessions()
                    } else {
                        r is Ok && final(self).sessions() == old(self).sessions().update(i, spliced(e, k, summary@))
                    }
                },
    {
        let i = match self.index_of(key) {
            None => return Err(StorageError::SessionNotFound(*key)),
            Some(i) => i,
        };
        let k = match find_message(&self.sessions[i].messages, tail_start) {
            None => return Err(StorageError::Internal(owned("保留段首条不存在"))),
            Some(k) => k,
        };
        let ghost before = self.sessions();
        let mut e = self.sessions.remove(i);
        let mut tail = e.messages[k].copy();
        tail.parent_id = Some(summary.id);
        e.messages.set(k, tail);
        e.messages.push(summary.copy());
        proof {
            assert(views(e.messages@) =~= spliced(before[i as int], k as int, summary@).messages);
            assert(entry_view(e) == spliced(before[i as int], k as int, summary@));
        }
        self.sessions.insert(i, e);
        proof {
            assert(self.sessions@ =~= old(self).sessions@.update(i as int, e));
            assert(self.sessions() =~= before.update(i as int, entry_view(e)));
            lemma_update_keeps_keys(before, i as int, entry_view(e));
        }
        Ok(())
    }
}

// ---------- mistake notebook ----------

pub open spec fn mistake_at(book: Seq<MistakeView>, id: MistakeId, i: int) -> bool {
    0 <= i < book.len() && book[i].id == id
}

pub open spec fn has_mistake(book: Seq<MistakeView>, id: MistakeId) -> bool {
    exists|i: int| mistake_at(book, id, i)
}

/// Index of the live mistake with this id, or -1.
pub open spec fn live_index(book: Seq<MistakeView>, id: MistakeId) -> int {
    if exists|i: int| mistake_at(book, id, i) && live(#[trigger] book[i]) {
        choose|i: int| mistake_at(book, id, i) && live(#[trigger] book[i])
    } else {
        -1
    }
}

/// The live mistake with this id, if any.
pub open spec fn live_lookup(book: Seq<MistakeView>, id: MistakeId) -> Option<MistakeView> {
    let i = live_index(book, id);
    if i >= 0 {
        Some(book[i])
    } else {
        None
    }
}

/// A mistake marked removed at `now`.
pub open spec fn deleted(m: MistakeView, now: i64) -> MistakeView {
    MistakeView { deleted_at: Some(now), ..m }
}

/// The notebook after removing `ids` one after the other at `now`, and how
/// many of them were live when their turn came.
pub open spec fn removed_many(book: Seq<MistakeView>, ids: Seq<MistakeId>, now: i64) -> (Seq<MistakeView>, nat)
    decreases ids.len(),
{
    if ids.len() == 0 {
        (book, 0)
    } else {
        let (b, n) = removed_many(book, ids.drop_last(), now);
        let k = live_index(b, ids.last());
        if k >= 0 {
            (b.update(k, deleted(b[k], now)), n + 1)
        } else {
            (b, n)
        }
    }
}

/// The mistakes of a notebook that pass a filter, in order.
pub open spec fn listed(ms: Seq<MistakeView>, f: crate::mistake::MistakeFilterView) -> Seq<MistakeView> {
    ms.filter(|m: MistakeView| passes(f, m))
}

/// Listing the notebook with a filter keeps exactly the mistakes that are
/// still in it and whose subject, knowledge point and correctness equal
/// those the filter names: every kept mistake has them, and every mistake
/// that has them is kept.
pub proof fn lemma_listed_mistakes(ms: Seq<MistakeView>, f: crate::mistake::MistakeFilterView)
    ensures
        forall|i: int|
            0 <= i < listed(ms, f).len() ==> {
                &&& (#[trigger] listed(ms, f)[i]).deleted_at is None
                &&& (f.subject matches Some(s) ==> listed(ms, f)[i].subject == s)
                &&& (f.knowledge_point matches Some(k) ==> listed(ms, f)[i].knowledge_point == k)
                &&& (f.is_correct matches Some(c) ==> listed(ms, f)[i].is_correct == c)
            },
        forall|j: int|
            0 <= j < ms.len() && (#[trigger] ms[j]).deleted_at is None && (f.subject matches Some(s) ==> ms[j].subject
                == s) && (f.knowledge_point matches Some(k) ==> ms[j].knowledge_point == k) && (f.is_correct matches Some(
                c,
            ) ==> ms[j].is_correct == c) ==> listed(ms, f).contains(ms[j]),
{
    let pred = |m: MistakeView| passes(f, m);
    assert forall|i: int| 0 <= i < ms.filter(pred).len() implies pred(#[trigger] ms.filter(pred)[i]) by {
        ms.lemma_filter_pred(pred, i);
    }
    assert forall|j: int| 0 <= j < ms.len() && pred(#[trigger] ms[j]) implies ms.filter(pred).contains(ms[j]) by {
        ms.lemma_filter_contains(pred, j);
    }
}

pub open spec fn mistake_views(v: Seq<Mistake>) -> Seq<MistakeView> {
    v.map_values(|m: Mistake| m@)
}

pub open spec fn is_mistake_not_found<T>(r: Result<T, StorageError>, id: MistakeId) -> bool {
    r matches Err(StorageError::MistakeNotFound(m)) && m@ == uuid_text(id.0)
}

proof fn lemma_live_index_is(book: Seq<MistakeView>, id: MistakeId, i: int)
    requires
        mistake_ids_distinct(book),
        mistake_at(book, id, i),
    ensures
        live_index(book, id) == if live(book[i]) { i } else { -1 },
{
    if exists|j: int| mistake_at(book, id, j) && live(#[trigger] book[j]) {
        let j = choose|j: int| mistake_at(book, id, j) && live(#[trigger] book[j]);
        assert(j == i);
    }
}

proof fn lemma_live_index_absent(book: Seq<MistakeView>, id: MistakeId)
    requires
        !has_mistake(book, id),
    ensures
        live_index(book, id) == -1,
{
    if exists|j: int| mistake_at(book, id, j) && live(#[trigger] book[j]) {
        let j = choose|j: int| mistake_at(book, id, j) && live(#[trigger] book[j]);
        assert(mistake_at(book, id, j));
    }
}

proof fn lemma_same_id_update(book: Seq<MistakeView>, k: int, m: MistakeView)
    requires
        mistake_ids_distinct(book),
        0 <= k < book.len(),
        m.id == book[k].id,
    ensures
        mistake_ids_distinct(book.update(k, m)),
{
    let t = book.update(k, m);
    assert forall|a: int, b: int| 0 <= a < t.len() && 0 <= b < t.len() && a != b implies t[a].id != t[b].id by {
        assert(t[a].id == book[a].id);
        assert(t[b].id == book[b].id);
    }
}

proof fn lemma_removed_many_keeps(book: Seq<MistakeView>, ids: Seq<MistakeId>, now: i64)
    requires
        mistake_ids_distinct(book),
    ensures
        mistake_ids_distinct(removed_many(book, ids, now).0),
        removed_many(book, ids, now).1 <= ids.len(),
    decreases ids.len(),
{
    if ids.len() > 0 {
        lemma_removed_many_keeps(book, ids.drop_last(), now);
        let (b, n) = removed_many(book, ids.drop_last(), now);
        let k = live_index(b, ids.last());
        if k >= 0 {
            assert(exists|i: int| mistake_at(b, ids.last(), i) && live(#[trigger] b[i]));
            lemma_same_id_update(b, k, deleted(b[k], now));
        }
    }
}

impl MemoryStorage {
    fn find_mistake(&self, id: &MistakeId) -> (r: Option<usize>)
        requires
            self.wf(),
        ensures
            match r {
                Some(i) => mistake_at(self.mistakes(), *id, i as int) && forall|j: int|
                    mistake_at(self.mistakes(), *id, j) ==> j == i,
                None => !has_mistake(self.mistakes(), *id),
            },
    {
        let mut i: usize = 0;
        while i < self.mistakes.len()
            invariant
                self.wf(),
                i <= self.mistakes@.len(),
                forall|j: int| 0 <= j < i ==> (#[trigger] self.mistakes@[j]).id != *id,
            decreases self.mistakes.len() - i,
        {
            if self.mistakes[i].id == *id {
                proof {
                    let b = self.mistakes();
                    assert(b[i as int].id == *id);
                    assert forall|j: int| mistake_at(b, *id, j) implies j == i as int by {
                        if j != i as int {
                            assert(b[j].id != b[i as int].id);
                        }
                    }
                }
                return Some(i);
            }
            i = i + 1;
        }
        proof {
            assert forall|j: int| !mistake_at(self.mistakes(), *id, j) by {
                if 0 <= j < self.mistakes@.len() {
                    assert(self.mistakes()[j].id == self.mistakes@[j].id);
                }
            }
        }
        None
    }

    /// Stores a new mistake; an id already stored (removed or not) is
    /// refused.
    pub fn save(&mut self, mistake: &Mistake) -> (r: Result<MistakeId, StorageError>)
        requires
            old(self).wf(),
        ensures
            final(self).wf(),
            final(self).sessions() == old(self).sessions(),
            has_mistake(old(self).mistakes(), mistake.id) ==> (r matches Err(StorageError::AlreadyExists(m)) && m@
                == uuid_text(mistake.id.0) && final(self).mistakes() == old(self).mistakes()),
            !has_mistake(old(self).mistakes(), mistake.id) ==> (r == Ok::<MistakeId, StorageError>(mistake.id)
                && final(self).mistakes() == old(self).mistakes().push(mistake@)),
    {
        if self.find_mistake(&mistake.id).is_some() {
            return Err(StorageError::AlreadyExists(uuid_string(mistake.id.0)));
        }
        let ghost before = self.mistakes();
        self.mistakes.push(mistake.copy());
        proof {
            assert(self.mistakes() =~= before.push(mistake@));
            let b = self.mistakes();
            assert forall|a: int, c: int| 0 <= a < b.len() && 0 <= c < b.len() && a != c implies b[a].id
                != b[c].id by {
                if a < before.len() && c < before.len() {
                    assert(before[a].id != before[c].id);
                } else if a < before.len() {
                    assert(!mistake_at(before, mistake.id, a));
                } else {
                    assert(!mistake_at(before, mistake.id, c));
                }
            }
        }
        Ok(mistake.id)
    }

    /// The whole notebook, removed mistakes included, in the order saved
    /// (what is written back to disk).
    pub fn all_mistakes(&self) -> (r: Vec<Mistake>)
        ensures
            mistake_views(r@) == self.mistakes(),
    {
        let mut out: Vec<Mistake> = Vec::new();
        let mut i: usize = 0;
        while i < self.mistakes.len()
            invariant
                i <= self.mistakes@.len(),
                mistake_views(out@) == mistake_views(self.mistakes@.take(i as int)),
            decreases self.mistakes.len() - i,
        {
            let ghost before = mistake_views(out@);
            out.push(self.mistakes[i].copy());
            proof {
                assert(self.mistakes@.take(i + 1) =~= self.mistakes@.take(i as int).push(self.mistakes@[i as int]));
                assert(mistake_views(out@) =~= before.push(self.mistakes@[i as int]@));
                assert(mistake_views(self.mistakes@.take(i + 1)) =~= mistake_views(self.mistakes@.take(i as int)).push(
                    self.mistakes@[i as int]@,
                ));
            }
            i = i + 1;
        }
        proof {
            assert(self.mistakes@.take(self.mistakes@.len() as int) =~= self.mistakes@);
        }
        out
    }

    /// The live mistake with this id.
    pub fn get(&self, id: &MistakeId) -> (r: Option<Mistake>)
        requires
            self.wf(),
        ensures
            match r {
                Some(m) => live_lookup(self.mistakes(), *id) == Some(m@),
                None => live_lookup(self.mistakes(), *id) is None,
            },
    {
        match self.find_mistake(id) {
            None => {
                proof {
                    lemma_live_index_absent(self.mistakes(), *id);
                }
                None
            },
            Some(i) => {
                proof {
                    lemma_live_index_is(self.mistakes(), *id, i as int);
                }
                if self.mistakes[i].deleted_at.is_none() {
                    Some(self.mistakes[i].copy())
                } else {
                    None
                }
            },
        }
    }

    /// The live mistakes that pass the filter, in the order they were saved.
    pub fn list(&self, filter: &MistakeFilter) -> (r: Vec<Mistake>)
        ensures
            mistake_views(r@) == self.mistakes().filter(|m: MistakeView| passes(filter@, m)),
            forall|i: int|
                0 <= i < r@.len() ==> {
                    &&& (#[trigger] r@[i]).deleted_at is None
                    &&& (filter.subject matches Some(s) ==> r@[i].subject@ == s@)
                    &&& (filter.knowledge_point matches Some(k) ==> r@[i].knowledge_point@ == k@)
                    &&& (filter.is_correct matches Some(c) ==> r@[i].is_correct == c)
                },
            forall|j: int|
                0 <= j < self.mistakes().len() && (#[trigger] self.mistakes()[j]).deleted_at is None && (
                filter.subject matches Some(s) ==> self.mistakes()[j].subject == s@) && (
                filter.knowledge_point matches Some(k) ==> self.mistakes()[j].knowledge_point == k@) && (
                filter.is_correct matches Some(c) ==> self.mistakes()[j].is_correct == c) ==> mistake_views(
                r@,
            ).contains(self.mistakes()[j]),
    {
        let ghost f = filter@;
        let ghost pred = |m: MistakeView| passes(f, m);
        let mut out: Vec<Mistake> = Vec::new();
        let mut i: usize = 0;
        proof {
            assert(self.mistakes().take(0) =~= Seq::<MistakeView>::empty());
            reveal(Seq::filter);
            assert(mistake_views(out@) =~= self.mistakes().take(0).filter(pred));
        }
        while i < self.mistakes.len()
            invariant
                i <= self.mistakes@.len(),
                f == filter@,
                pred == (|m: MistakeView| passes(f, m)),
                mistake_views(out@) == self.mistakes().take(i as int).filter(pred),
            decreases self.mistakes.len() - i,
        {
            let m = &self.mistakes[i];
            let subject_ok = match &filter.subject {
                Some(s) => crate::text::str_eq(m.subject.as_str(), s.as_str()),
                None => true,
            };
            let point_ok = match &filter.knowledge_point {
                Some(k) => crate::text::str_eq(m.knowledge_point.as_str(), k.as_str()),
                None => true,
            };
            let correct_ok = match filter.is_correct {
                Some(c) => m.is_correct == c,
                None => true,
            };
            let ok = subject_ok && point_ok && correct_ok && m.deleted_at.is_none();
            let ghost before = mistake_views(out@);
            proof {
                let b = self.mistakes();
                assert(b.take(i + 1) =~= b.take(i as int).push(b[i as int]));
                b.take(i as int).lemma_filter_push(b[i as int], pred);
                assert(b[i as int] == m@);
                assert(ok == passes(f, m@));
            }
            if ok {
                out.push(m.copy());
                proof {
                    assert(mistake_views(out@) =~= before.push(m@));
                }
            }
            i = i + 1;
        }
        proof {
            assert(self.mistakes().take(self.mistakes@.len() as int) =~= self.mistakes());
            lemma_listed_mistakes(self.mistakes(), f);
            assert forall|i: int| 0 <= i < out@.len() implies {
                &&& (#[trigger] out@[i]).deleted_at is None
                &&& (filter.subject matches Some(s) ==> out@[i].subject@ == s@)
                &&& (filter.knowledge_point matches Some(k) ==> out@[i].knowledge_point@ == k@)
                &&& (filter.is_correct matches Some(c) ==> out@[i].is_correct == c)
            } by {
                assert(mistake_views(out@)[i] == out@[i]@);
            }
        }
        out
    }

    /// Applies a patch to a live mistake.
    pub fn update(&mut self, id: &MistakeId, patch: &MistakePatch) -> (r: Result<(), StorageError>)
        requires
            old(self).wf(),
        ensures
            final(self).wf(),
            final(self).sessions() == old(self).sessions(),
            live_index(old(self).mistakes(), *id) < 0 ==> (is_mistake_not_found(r, *id) && final(self).mistakes()
                == old(self).mistakes()),
            live_index(old(self).mistakes(), *id) >= 0 ==> {
                let k = live_index(old(self).mistakes(), *id);
                r is Ok && final(self).mistakes() == old(self).mistakes().update(
                    k,
                    patched(old(self).mistakes()[k], patch@),
                )
            },
    {
        let i = match self.find_mistake(id) {
            None => {
                proof {
                    lemma_live_index_absent(self.mistakes(), *id);
                }
                return Err(StorageError::MistakeNotFound(uuid_string(id.0)));
            },
            Some(i) => i,
        };
        proof {
            lemma_live_index_is(self.mistakes(), *id, i as int);
        }
        if self.mistakes[i].deleted_at.is_some() {
            return Err(StorageError::MistakeNotFound(uuid_string(id.0)));
        }
        let mut m = self.mistakes[i].copy();
        if let Some(s) = &patch.subject {
            m.subject = owned(s.as_str());
        }
        if let Some(k) = &patch.knowledge_point {
            m.knowledge_point = owned(k.as_str());
        }
        if let Some(q) = &patch.question {
            m.question = owned(q.as_str());
        }
        if let Some(s) = &patch.student_answer {
            m.student_answer = owned(s.as_str());
        }
        if let Some(r) = &patch.reference_answer {
            m.reference_answer = crate::message::copy_opt_string(r);
        }
        if let Some(a) = &patch.analysis {
            m.analysis = owned(a.as_str());
        }
        if let Some(c) = patch.is_correct {
            m.is_correct = c;
        }
        if let Some(p) = patch.pinned {
            m.pinned = p;
        }
        let ghost before = self.mistakes();
        proof {
            assert(m@ == patched(before[i as int], patch@));
        }
        self.mistakes.set(i, m);
        proof {
            assert(self.mistakes() =~= before.update(i as int, m@));
            lemma_same_id_update(before, i as int, m@);
        }
        Ok(())
    }

    /// Removes a mistake at time `now` (its record stays, marked removed);
    /// removing one already removed changes nothing.
    pub fn remove_at(&mut self, id: &MistakeId, now: i64) -> (r: Result<(), StorageError>)
        requires
            old(self).wf(),
        ensures
            final(self).wf(),
            final(self).sessions() == old(self).sessions(),
            !has_mistake(old(self).mistakes(), *id) ==> (is_mistake_not_found(r, *id) && final(self).mistakes()
                == old(self).mistakes()),
            forall|i: int| #[trigger]
                mistake_at(old(self).mistakes(), *id, i) ==> r is Ok && final(self).mistakes() == if live(
                    old(self).mistakes()[i],
                ) {
                    old(self).mistakes().update(i, deleted(old(self).mistakes()[i], now))
                } else {
                    old(self).mistakes()
                },
    {
        let i = match self.find_mistake(id) {
            None => return Err(StorageError::MistakeNotFound(uuid_string(id.0))),
            Some(i) => i,
        };
        if self.mistakes[i].deleted_at.is_none() {
            let ghost before = self.mistakes();
            let mut m = self.mistakes[i].copy();
            m.deleted_at = Some(now);
            self.mistakes.set(i, m);
            proof {
                assert(self.mistakes() =~= before.update(i as int, deleted(before[i as int], now)));
                lemma_same_id_update(before, i as int, m@);
            }
        }
        Ok(())
    }

    /// Removes a mistake now; see `remove_at`.
    pub fn remove(&mut self, id: &MistakeId) -> (r: Result<(), StorageError>)
        requires
            old(self).wf(),
        ensures
            final(self).wf(),
            final(self).sessions() == old(self).sessions(),
            !has_mistake(old(self).mistakes(), *id) ==> (is_mistake_not_found(r, *id) && final(self).mistakes()
                == old(self).mistakes()),
            forall|i: int| #[trigger]
                mistake_at(old(self).mistakes(), *id, i) ==> r is Ok && final(self).mistakes() == if live(
                    old(self).mistakes()[i],
                ) {
                    old(self).mistakes().update(i, deleted(old(self).mistakes()[i], final(self).mistakes()[i].deleted_at->0))
                } else {
                    old(self).mistakes()
                },
    {
        let now = now_millis();
        self.remove_at(id, now)
    }

    /// Removes each listed mistake at time `now`, in order; returns how many
    /// were live when their turn came (unknown and already removed ids, and
    /// repeats, do not count).
    pub fn remove_many_at(&mut self, ids: &[MistakeId], now: i64) -> (r: usize)
        requires
            old(self).wf(),
        ensures
            final(self).wf(),
            final(self).sessions() == old(self).sessions(),
            (final(self).mistakes(), r as nat) == removed_many(old(self).mistakes(), ids@, now),
    {
        let mut count: usize = 0;
        let mut j: usize = 0;
        proof {
            assert(ids@.take(0) =~= Seq::<MistakeId>::empty());
        }
        while j < ids.len()
            invariant
                self.wf(),
                self.sessions() == old(self).sessions(),
                j <= ids@.len(),
                count <= j,
                (self.mistakes(), count as nat) == removed_many(old(self).mistakes(), ids@.take(j as int), now),
            decreases ids.len() - j,
        {
            let id = ids[j];
            proof {
                assert(ids@.take(j + 1).drop_last() =~= ids@.take(j as int));
                assert(ids@.take(j + 1).last() == id);
            }
            match self.find_mistake(&id) {
                None => {
                    proof {
                        lemma_live_index_absent(self.mistakes(), id);
                    }
                },
                Some(i) => {
                    proof {
                        lemma_live_index_is(self.mistakes(), id, i as int);
                    }
                    if self.mistakes[i].deleted_at.is_none() {
                        let ghost before = self.mistakes();
                        let mut m = self.mistakes[i].copy();
                        m.deleted_at = Some(now);
                        self.mistakes.set(i, m);
                        proof {
                            assert(self.mistakes() =~= before.update(i as int, deleted(before[i as int], now)));
                            lemma_same_id_update(before, i as int, m@);
                        }
                        count = count + 1;
                    }
                },
            }
            j = j + 1;
        }
        proof {
            assert(ids@.take(ids@.len() as int) =~= ids@);
        }
        count
    }

    /// Removes each listed mistake now; see `remove_many_at`.
    pub fn remove_many(&mut self, ids: &[MistakeId]) -> (r: usize)
        requires
            old(self).wf(),
        ensures
            final(self).wf(),
            final(self).sessions() == old(self).sessions(),
            exists|t: i64| #[trigger] removed_many(old(self).mistakes(), ids@, t) == (final(self).mistakes(), r as nat),
    {
        let now = now_millis();
        self.remove_many_at(ids, now)
    }
}

/// What is saved is what is read back: after `save` of a live mistake with
/// an id the notebook did not hold, `get` of that id gives it.
pub proof fn lemma_saved_mistake_is_found(book: Seq<MistakeView>, m: MistakeView)
    requires
        mistake_ids_distinct(book),
        !has_mistake(book, m.id),
        live(m),
    ensures
        live_lookup(book.push(m), m.id) == Some(m),
{
    let b = book.push(m);
    assert forall|a: int, c: int| 0 <= a < b.len() && 0 <= c < b.len() && a != c implies b[a].id != b[c].id by {
        if a < book.len() && c < book.len() {
            assert(book[a].id != book[c].id);
        } else if a < book.len() {
            assert(!mistake_at(book, m.id, a));
        } else {
            assert(!mistake_at(book, m.id, c));
        }
    }
    lemma_live_index_is(b, m.id, book.len() as int);
}

/// A removed mistake is gone: after `remove` of a stored id, `get` of that
/// id gives nothing.
pub proof fn lemma_removed_mistake_is_gone(book: Seq<MistakeView>, id: MistakeId, i: int, now: i64)
    requires
        mistake_ids_distinct(book),
        mistake_at(book, id, i),
    ensures
        live_lookup(book.update(i, deleted(book[i], now)), id) is None,
{
    let b = book.update(i, deleted(book[i], now));
    lemma_same_id_update(book, i, deleted(book[i], now));
    lemma_live_index_is(b, id, i);
}

/// An update is read back: after `update` of a live mistake, `get` gives it
/// with the patch applied.
pub proof fn lemma_updated_mistake_is_patched(book: Seq<MistakeView>, id: MistakeId, p: crate::mistake::MistakePatchView)
    requires
        mistake_ids_distinct(book),
        live_index(book, id) >= 0,
    ensures
        live_lookup(book.update(live_index(book, id), patched(book[live_index(book, id)], p)), id) == Some(
            patched(book[live_index(book, id)], p),
        ),
{
    let k = live_index(book, id);
    assert(exists|i: int| mistake_at(book, id, i) && live(#[trigger] book[i]));
    let b = book.update(k, patched(book[k], p));
    lemma_same_id_update(book, k, patched(book[k], p));
    lemma_live_index_is(b, id, k);
}

// ---------- the single active session ----------

pub open spec fn is_active(e: EntryView) -> bool {
    e.meta.status == SessionStatus::Active
}

/// Index of the first active session, or -1.
pub open spec fn first_active(s: Seq<EntryView>) -> int
    decreases s.len(),
{
    if s.len() == 0 {
        -1
    } else if first_active(s.drop_last()) >= 0 {
        first_active(s.drop_last())
    } else if is_active(s.last()) {
        s.len() - 1
    } else {
        -1
    }
}

/// At most one session is active.
pub open spec fn at_most_one_active(s: Seq<EntryView>) -> bool {
    forall|i: int, j: int| 0 <= i < s.len() && 0 <= j < s.len() && is_active(#[trigger] s[i]) && is_active(#[trigger] s[j]) ==> i == j
}

/// The sessions with every active one archived at `t`.
pub open spec fn archived_all(s: Seq<EntryView>, t: i64) -> Seq<EntryView> {
    Seq::new(
        s.len(),
        |i: int|
            if is_active(s[i]) {
                with_meta(s[i], SessionMetaView { status: SessionStatus::Archived, archived_at: Some(t), ..s[i].meta })
            } else {
                s[i]
            },
    )
}

/// `first_active` is the position of the first active session, or -1 when
/// none is active.
pub proof fn lemma_first_active(s: Seq<EntryView>)
    ensures
        -1 <= first_active(s) < s.len(),
        first_active(s) >= 0 ==> is_active(s[first_active(s)]) && forall|j: int|
            0 <= j < first_active(s) ==> !is_active(#[trigger] s[j]),
        first_active(s) < 0 ==> forall|j: int| 0 <= j < s.len() ==> !is_active(#[trigger] s[j]),
    decreases s.len(),
{
    if s.len() > 0 {
        lemma_first_active(s.drop_last());
        assert forall|j: int| 0 <= j < s.len() - 1 implies s.drop_last()[j] == s[j] by {}
    }
}

impl MemoryStorage {
    /// Key of the first active session in storage order.
    pub fn active_session_key(&self) -> (r: Option<SessionKey>)
        ensures
            first_active(self.sessions()) < 0 ==> r is None,
            first_active(self.sessions()) >= 0 ==> r == Some(self.sessions()[first_active(self.sessions())].key),
    {
        proof {
            lemma_first_active(self.sessions());
        }
        let mut i: usize = 0;
        while i < self.sessions.len()
            invariant
                i <= self.sessions@.len(),
                forall|j: int| 0 <= j < i ==> !is_active(#[trigger] self.sessions()[j]),
                -1 <= first_active(self.sessions()) < self.sessions@.len(),
                first_active(self.sessions()) >= 0 ==> is_active(self.sessions()[first_active(self.sessions())]) && forall|j: int|
                    0 <= j < first_active(self.sessions()) ==> !is_active(#[trigger] self.sessions()[j]),
                first_active(self.sessions()) < 0 ==> forall|j: int| 0 <= j < self.sessions().len() ==> !is_active(#[trigger] self.sessions()[j]),
            decreases self.sessions.len() - i,
        {
            if self.sessions[i].meta.status == SessionStatus::Active {
                assert(is_active(self.sessions()[i as int]));
                return Some(self.sessions[i].key);
            }
            assert(!is_active(self.sessions()[i as int]));
            i = i + 1;
        }
        None
    }

    /// Archives every active session at time `t`.
    pub fn archive_all_active_at(&mut self, t: i64)
        requires
            old(self).wf(),
        ensures
            final(self).wf(),
            final(self).mistakes() == old(self).mistakes(),
            final(self).sessions() == archived_all(old(self).sessions(), t),
    {
        let ghost s0 = self.sessions();
        let mut i: usize = 0;
        while i < self.sessions.len()
            invariant
                self.wf(),
                self.mistakes() == old(self).mistakes(),
                self.sessions().len() == s0.len(),
                self.sessions@.len() == s0.len(),
                i <= s0.len(),
                forall|j: int| 0 <= j < i ==> #[trigger] self.sessions()[j] == archived_all(s0, t)[j],
                forall|j: int| i <= j < s0.len() ==> #[trigger] self.sessions()[j] == s0[j],
            decreases self.sessions.len() - i,
        {
            if self.sessions[i].meta.status == SessionStatus::Active {
                let mut m = self.sessions[i].meta.copy();
                m.status = SessionStatus::Archived;
                m.archived_at = Some(t);
                self.put_meta(i, m);
            }
            assert(self.sessions@.len() == self.sessions().len());
            i = i + 1;
        }
        assert(self.sessions() =~= archived_all(s0, t));
    }
}

/// Archiving every active session leaves none active.
pub proof fn lemma_archived_all_none_active(s: Seq<EntryView>, t: i64)
    ensures
        forall|j: int| 0 <= j < s.len() ==> !is_active(#[trigger] archived_all(s, t)[j]),
        first_active(archived_all(s, t)) < 0,
{
    let a = archived_all(s, t);
    lemma_first_active(a);
    if first_active(a) >= 0 {
        let k = first_active(a);
        assert(!is_active(a[k]));
    }
}

/// The text of a storage error as users see it.
pub open spec fn storage_error_text(e: StorageError) -> Seq<char> {
    match e {
        StorageError::SessionNotFound(k) => "会话不存在："@ + uuid_text(k.0),
        StorageError::MistakeNotFound(m) => "错题不存在："@ + m@,
        StorageError::AlreadyExists(m) => "已存在："@ + m@,
        StorageError::Corrupt(m) => "数据损坏："@ + m@,
        StorageError::Io(m) => "IO 错误："@ + m@,
        StorageError::InvalidPath(m) => "路径非法："@ + m@,
        StorageError::Internal(m) => "内部错误："@ + m@,
    }
}

impl StorageError {
    pub fn describe(&self) -> (r: String)
        ensures
            r@ == storage_error_text(*self),
    {
        match self {
            StorageError::SessionNotFound(k) => {
                let id = uuid_string(k.0);
                crate::text::concat2("会话不存在：", id.as_str())
            },
            StorageError::MistakeNotFound(m) => crate::text::concat2("错题不存在：", m.as_str()),
            StorageError::AlreadyExists(m) => crate::text::concat2("已存在：", m.as_str()),
            StorageError::Corrupt(m) => crate::text::concat2("数据损坏：", m.as_str()),
            StorageError::Io(m) => crate::text::concat2("IO 错误：", m.as_str()),
            StorageError::InvalidPath(m) => crate::text::concat2("路径非法：", m.as_str()),
            StorageError::Internal(m) => crate::text::concat2("内部错误：", m.as_str()),
        }
    }
}

} // verus!
