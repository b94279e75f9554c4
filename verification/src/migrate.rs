//! Splitting a legacy session file: sessions written before topic
//! boundaries were the user's to decide hold several topics, each begun by
//! a hand-off summary message.  Each topic becomes a session of its own.
//! Reading and writing the files stays with the caller.
use vstd::prelude::*;

use crate::message::{KindView, Message, MessageId, MessageKind, MessageView};
use crate::store::views;
use crate::text::{has_prefix, starts_with};

verus! {

/// Text that opens a topic boundary: the hand-off summary of a new session.
pub const BOUNDARY_PREFIX: &'static str = "上一会话梗概：";

pub open spec fn boundary_prefix() -> Seq<char> {
    "上一会话梗概："@
}

/// The summary text of a boundary message: a system message whose text
/// starts with the prefix, without it.  Compaction summaries and the older
/// hand-off tail markers are no boundaries.
pub open spec fn boundary_text_of(m: MessageView) -> Option<Seq<char>> {
    match m.kind {
        KindView::System { text, .. } => if has_prefix(text, boundary_prefix()) {
            Some(text.skip(boundary_prefix().len() as int))
        } else {
            None
        },
        _ => None,
    }
}

pub open spec fn is_boundary(m: MessageView) -> bool {
    boundary_text_of(m) is Some
}

pub fn boundary_summary(msg: &Message) -> (r: Option<&str>)
    ensures
        match r {
            Some(t) => boundary_text_of(msg@) == Some(t@),
            None => boundary_text_of(msg@) is None,
        },
{
    match &msg.kind {
        MessageKind::System { text, .. } => {
            proof {
                reveal_strlit("上一会话梗概：");
            }
            if starts_with(text.as_str(), BOUNDARY_PREFIX) {
                let n = text.unicode_len();
                let k = BOUNDARY_PREFIX.unicode_len();
                let rest = text.as_str().substring_char(k, n);
                proof {
                    assert(rest@ =~= text@.skip(k as int));
                }
                Some(rest)
            } else {
                None
            }
        },
        _ => None,
    }
}

// ---------- which segment a message goes to ----------

/// Boundary messages among `ms`.
pub open spec fn boundary_count(ms: Seq<MessageView>) -> nat
    decreases ms.len(),
{
    if ms.len() == 0 {
        0
    } else {
        boundary_count(ms.drop_last()) + if is_boundary(ms.last()) {
            1nat
        } else {
            0nat
        }
    }
}

/// The segment of each boundary: the k-th boundary (from 1) opens segment k.
/// Later entries for an id replace earlier ones.
pub open spec fn boundary_entries(ms: Seq<MessageView>) -> Seq<(MessageId, usize)>
    decreases ms.len(),
{
    if ms.len() == 0 {
        Seq::empty()
    } else {
        let e = boundary_entries(ms.drop_last());
        if is_boundary(ms.last()) {
            e.push((ms.last().id, boundary_count(ms) as usize))
        } else {
            e
        }
    }
}

/// The latest entry for `id`.
pub open spec fn lookup_last(es: Seq<(MessageId, usize)>, id: MessageId) -> Option<usize>
    decreases es.len(),
{
    if es.len() == 0 {
        None
    } else if es.last().0 == id {
        Some(es.last().1)
    } else {
        lookup_last(es.drop_last(), id)
    }
}

/// The parent of the last message with that id (none for an unknown id).
pub open spec fn last_parent(ms: Seq<MessageView>, id: MessageId) -> Option<MessageId>
    decreases ms.len(),
{
    if ms.len() == 0 {
        None
    } else if ms.last().id == id {
        ms.last().parent_id
    } else {
        last_parent(ms.drop_last(), id)
    }
}

/// Up the parent chain from `cur`: the segment of the first ancestor that
/// has one; 0 when the chain ends, leaves the list or comes back on itself.
pub open spec fn walk(ms: Seq<MessageView>, es: Seq<(MessageId, usize)>, cur: Option<MessageId>, seen: Seq<MessageId>, fuel: nat) -> usize
    decreases fuel,
{
    if fuel == 0 {
        0
    } else {
        match cur {
            None => 0,
            Some(p) => if seen.contains(p) {
                0
            } else {
                match lookup_last(es, p) {
                    Some(s) => s,
                    None => walk(ms, es, last_parent(ms, p), seen.push(p), (fuel - 1) as nat),
                }
            },
        }
    }
}

/// Steps a walk gets: enough to visit every message once and step off.
pub open spec fn walk_fuel(ms: Seq<MessageView>) -> nat {
    ms.len() + 2
}

/// The segment entries after the first `i` messages were placed, in order:
/// a message whose id has a segment keeps it, another gets the segment of
/// its nearest placed ancestor.
pub open spec fn assigned(ms: Seq<MessageView>, i: nat) -> Seq<(MessageId, usize)>
    decreases i,
{
    if i == 0 || i > ms.len() {
        boundary_entries(ms)
    } else {
        let e = assigned(ms, (i - 1) as nat);
        let m = ms[i - 1];
        if lookup_last(e, m.id) is Some {
            e
        } else {
            e.push((m.id, walk(ms, e, m.parent_id, Seq::empty(), walk_fuel(ms))))
        }
    }
}

pub open spec fn final_entries(ms: Seq<MessageView>) -> Seq<(MessageId, usize)> {
    assigned(ms, ms.len())
}

pub open spec fn segment_of(ms: Seq<MessageView>, id: MessageId) -> usize {
    match lookup_last(final_entries(ms), id) {
        Some(s) => s,
        None => 0,
    }
}

/// The messages of `ps` in segment `k` (of the whole list `ms`), in order.
pub open spec fn members(ms: Seq<MessageView>, ps: Seq<MessageView>, k: usize) -> Seq<MessageView>
    decreases ps.len(),
{
    if ps.len() == 0 {
        Seq::empty()
    } else {
        let g = members(ms, ps.drop_last(), k);
        if segment_of(ms, ps.last().id) == k {
            g.push(ps.last())
        } else {
            g
        }
    }
}

/// The segments of a session: segment 0 holds what comes before any
/// boundary, segment k the k-th boundary and its descendants.
pub open spec fn segments(ms: Seq<MessageView>) -> Seq<Seq<MessageView>> {
    Seq::new(boundary_count(ms) + 1, |k: int| members(ms, ms, k as usize))
}

// ---------- executable pieces ----------

proof fn lemma_boundary_count_bound(ms: Seq<MessageView>)
    ensures
        boundary_count(ms) <= ms.len(),
    decreases ms.len(),
{
    if ms.len() > 0 {
        lemma_boundary_count_bound(ms.drop_last());
    }
}

fn find_last(es: &Vec<(MessageId, usize)>, id: MessageId) -> (r: Option<usize>)
    ensures
        r == lookup_last(es@, id),
{
    let mut j: usize = es.len();
    proof {
        assert(es@.take(j as int) =~= es@);
    }
    while j > 0
        invariant
            j <= es@.len(),
            lookup_last(es@, id) == lookup_last(es@.take(j as int), id),
        decreases j,
    {
        let (k, s) = es[j - 1];
        proof {
            assert(es@.take(j as int).last() == es@[j - 1]);
            assert(es@.take(j as int).drop_last() =~= es@.take(j - 1));
        }
        if k == id {
            return Some(s);
        }
        j = j - 1;
    }
    None
}

fn parent_in(messages: &Vec<Message>, id: MessageId) -> (r: Option<MessageId>)
    ensures
        r == last_parent(views(messages@), id),
{
    let ghost ms = views(messages@);
    let mut j: usize = messages.len();
    proof {
        assert(ms.take(j as int) =~= ms);
    }
    while j > 0
        invariant
            ms == views(messages@),
            j <= messages@.len(),
            last_parent(ms, id) == last_parent(ms.take(j as int), id),
        decreases j,
    {
        proof {
            assert(ms.take(j as int).last() == messages@[j - 1]@);
            assert(ms.take(j as int).drop_last() =~= ms.take(j - 1));
        }
        if messages[j - 1].id == id {
            return messages[j - 1].parent_id;
        }
        j = j - 1;
    }
    proof {
        assert(ms.take(0) =~= Seq::<MessageView>::empty());
    }
    None
}

fn seen_contains(seen: &Vec<MessageId>, p: MessageId) -> (b: bool)
    ensures
        b == seen@.contains(p),
{
    let mut i: usize = 0;
    while i < seen.len()
        invariant
            i <= seen@.len(),
            forall|k: int| 0 <= k < i ==> seen@[k] != p,
        decreases seen.len() - i,
    {
        if seen[i] == p {
            assert(seen@[i as int] == p);
            return true;
        }
        i = i + 1;
    }
    false
}

fn walk_up(messages: &Vec<Message>, es: &Vec<(MessageId, usize)>, start: Option<MessageId>) -> (s: usize)
    ensures
        s == walk(views(messages@), es@, start, Seq::empty(), walk_fuel(views(messages@))),
{
    let ghost ms = views(messages@);
    let mut cur = start;
    let mut seen: Vec<MessageId> = Vec::new();
    let mut fuel: u128 = messages.len() as u128 + 2;
    while fuel > 0
        invariant
            ms == views(messages@),
            walk(ms, es@, start, Seq::empty(), walk_fuel(ms)) == walk(ms, es@, cur, seen@, fuel as nat),
        decreases fuel,
    {
        match cur {
            None => {
                return 0;
            },
            Some(p) => {
                if seen_contains(&seen, p) {
                    return 0;
                }
                match find_last(es, p) {
                    Some(s) => {
                        return s;
                    },
                    None => {
                        cur = parent_in(messages, p);
                        seen.push(p);
                        fuel = fuel - 1;
                    },
                }
            },
        }
    }
    0
}

/// The segment entries of all messages, as `assigned` places them.
fn place_all(messages: &Vec<Message>) -> (r: (Vec<(MessageId, usize)>, usize))
    ensures
        r.0@ == final_entries(views(messages@)),
        r.1 == boundary_count(views(messages@)),
{
    let ghost ms = views(messages@);
    let mut es: Vec<(MessageId, usize)> = Vec::new();
    let mut count: usize = 0;
    let mut i: usize = 0;
    proof {
        assert(ms.take(0) =~= Seq::<MessageView>::empty());
    }
    while i < messages.len()
        invariant
            ms == views(messages@),
            i <= messages@.len(),
            count == boundary_count(ms.take(i as int)),
            count <= i,
            es@ == boundary_entries(ms.take(i as int)),
        decreases messages.len() - i,
    {
        proof {
            assert(ms.take(i + 1).drop_last() =~= ms.take(i as int));
            assert(ms.take(i + 1).last() == messages@[i as int]@);
        }
        match boundary_summary(&messages[i]) {
            Some(_) => {
                count = count + 1;
                es.push((messages[i].id, count));
            },
            None => {},
        }
        i = i + 1;
    }
    proof {
        assert(ms.take(messages@.len() as int) =~= ms);
        assert(es@ == assigned(ms, 0));
    }
    let mut i: usize = 0;
    while i < messages.len()
        invariant
            ms == views(messages@),
            i <= messages@.len(),
            count == boundary_count(ms),
            es@ == assigned(ms, i as nat),
        decreases messages.len() - i,
    {
        let id = messages[i].id;
        match find_last(&es, id) {
            Some(_) => {},
            None => {
                let s = walk_up(messages, &es, messages[i].parent_id);
                es.push((id, s));
            },
        }
        i = i + 1;
    }
    (es, count)
}

/// The messages of segment `k`, as copies.
fn members_of(messages: &Vec<Message>, es: &Vec<(MessageId, usize)>, k: usize) -> (r: Vec<Message>)
    requires
        es@ == final_entries(views(messages@)),
    ensures
        views(r@) == members(views(messages@), views(messages@), k),
{
    let ghost ms = views(messages@);
    let mut out: Vec<Message> = Vec::new();
    let mut i: usize = 0;
    proof {
        assert(ms.take(0) =~= Seq::<MessageView>::empty());
        assert(views(out@) =~= Seq::<MessageView>::empty());
    }
    while i < messages.len()
        invariant
            ms == views(messages@),
            es@ == final_entries(ms),
            i <= messages@.len(),
            views(out@) == members(ms, ms.take(i as int), k),
        decreases messages.len() - i,
    {
        proof {
            assert(ms.take(i + 1).drop_last() =~= ms.take(i as int));
            assert(ms.take(i + 1).last() == messages@[i as int]@);
        }
        let s = match find_last(es, messages[i].id) {
            Some(s) => s,
            None => 0,
        };
        if s == k {
            let ghost before = views(out@);
            out.push(messages[i].copy());
            proof {
                assert(views(out@) =~= before.push(messages@[i as int]@));
            }
        }
        i = i + 1;
    }
    proof {
        assert(ms.take(messages@.len() as int) =~= ms);
    }
    out
}

/// Splits a session's messages at its boundaries: segment 0 is what comes
/// before the first boundary, segment k the k-th boundary with every message
/// whose nearest placed ancestor lies in it.
pub fn split_segments(messages: &Vec<Message>) -> (r: Vec<Vec<Message>>)
    ensures
        r@.len() == segments(views(messages@)).len(),
        forall|k: int| 0 <= k < r@.len() ==> views(#[trigger] r@[k]@) == segments(views(messages@))[k],
{
    let ghost ms = views(messages@);
    let (es, count) = place_all(messages);
    proof {
        lemma_boundary_count_bound(ms);
    }
    let mut groups: Vec<Vec<Message>> = Vec::new();
    let mut k: usize = 0;
    loop
        invariant_except_break
            groups@.len() == k,
            forall|j: int| 0 <= j < k ==> views(#[trigger] groups@[j]@) == segments(ms)[j],
        invariant
            ms == views(messages@),
            es@ == final_entries(ms),
            count == boundary_count(ms),
            count <= messages@.len(),
            k <= count,
        ensures
            groups@.len() == count + 1,
            forall|j: int| 0 <= j < count + 1 ==> views(#[trigger] groups@[j]@) == segments(ms)[j],
        decreases count - k,
    {
        let g = members_of(messages, &es, k);
        groups.push(g);
        if k == count {
            break;
        }
        k = k + 1;
    }
    groups
}

/// Whether a session needs splitting: more than one segment has messages.
pub open spec fn needs_split(segs: Seq<Seq<MessageView>>) -> bool {
    exists|i: int, j: int| #![trigger segs[i], segs[j]] 0 <= i < j < segs.len() && segs[i].len() > 0 && segs[j].len() > 0
}

/// The segments of a session that holds several topics; none for a session
/// of one topic (no boundary, or one boundary at its head, as a split leaves
/// it), so that splitting twice changes nothing.
pub fn plan_split(messages: &Vec<Message>) -> (r: Option<Vec<Vec<Message>>>)
    ensures
        match r {
            Some(g) => needs_split(segments(views(messages@))) && g@.len() == segments(views(messages@)).len() && forall|
                k: int,
            |
                0 <= k < g@.len() ==> views(#[trigger] g@[k]@) == segments(views(messages@))[k],
            None => !needs_split(segments(views(messages@))),
        },
{
    let groups = split_segments(messages);
    let ghost segs = segments(views(messages@));
    let mut first: Option<usize> = None;
    let mut i: usize = 0;
    while i < groups.len()
        invariant
            segs == segments(views(messages@)),
            groups@.len() == segs.len(),
            forall|k: int| 0 <= k < groups@.len() ==> views(#[trigger] groups@[k]@) == segs[k],
            i <= groups@.len(),
            match first {
                Some(f) => f < i && segs[f as int].len() > 0,
                None => forall|j: int| 0 <= j < i ==> #[trigger] segs[j].len() == 0,
            },
            forall|a: int, b: int| 0 <= a < b < i ==> !(segs[a].len() > 0 && segs[b].len() > 0),
        decreases groups.len() - i,
    {
        proof {
            assert(views(groups@[i as int]@) == segs[i as int]);
            assert(views(groups@[i as int]@).len() == groups@[i as int]@.len());
        }
        if groups[i].len() > 0 {
            match first {
                Some(f) => {
                    proof {
                        assert(segs[f as int].len() > 0 && segs[i as int].len() > 0);
                        assert(needs_split(segs));
                    }
                    return Some(groups);
                },
                None => {
                    first = Some(i);
                },
            }
        }
        i = i + 1;
    }
    None
}

// ---------- laws of the split ----------

/// No two messages share an id.
pub open spec fn unique_ids(ms: Seq<MessageView>) -> bool {
    forall|i: int, j: int| 0 <= i < j < ms.len() ==> #[trigger] ms[i].id != #[trigger] ms[j].id
}

proof fn lemma_lookup_push_other(es: Seq<(MessageId, usize)>, x: MessageId, s: usize, id: MessageId)
    requires
        x != id,
    ensures
        lookup_last(es.push((x, s)), id) == lookup_last(es, id),
{
    assert(es.push((x, s)).drop_last() =~= es);
}

/// A boundary's entry, when ids are unique: the number of boundaries up to it.
proof fn lemma_boundary_entry(ms: Seq<MessageView>, i: int)
    requires
        unique_ids(ms),
        0 <= i < ms.len(),
        is_boundary(ms[i]),
    ensures
        lookup_last(boundary_entries(ms), ms[i].id) == Some(boundary_count(ms.take(i + 1)) as usize),
    decreases ms.len(),
{
    let last = ms.len() - 1;
    let pre = ms.drop_last();
    if i == last {
        assert(ms.take(i + 1) =~= ms);
        assert(boundary_entries(ms) == boundary_entries(pre).push((ms.last().id, boundary_count(ms) as usize)));
    } else {
        assert(unique_ids(pre)) by {
            assert forall|a: int, b: int| 0 <= a < b < pre.len() implies #[trigger] pre[a].id != #[trigger] pre[b].id by {
                assert(ms[a].id != ms[b].id);
            }
        }
        assert(pre[i] == ms[i]);
        lemma_boundary_entry(pre, i);
        assert(pre.take(i + 1) =~= ms.take(i + 1));
        assert(ms[last].id != ms[i].id);
        if is_boundary(ms.last()) {
            lemma_lookup_push_other(boundary_entries(pre), ms.last().id, boundary_count(ms) as usize, ms[i].id);
        }
    }
}

/// Entries placed after the boundaries never replace an entry that exists.
proof fn lemma_assigned_keeps(ms: Seq<MessageView>, n: nat, id: MessageId)
    requires
        n <= ms.len(),
        lookup_last(boundary_entries(ms), id) is Some,
    ensures
        lookup_last(assigned(ms, n), id) == lookup_last(boundary_entries(ms), id),
    decreases n,
{
    if n > 0 {
        lemma_assigned_keeps(ms, (n - 1) as nat, id);
        let e = assigned(ms, (n - 1) as nat);
        let m = ms[n - 1];
        if lookup_last(e, m.id) is None {
            assert(m.id != id);
            lemma_lookup_push_other(e, m.id, walk(ms, e, m.parent_id, Seq::empty(), walk_fuel(ms)), id);
        }
    }
}

/// Each boundary opens its own segment: with unique ids, the k-th boundary
/// message (from 1) is placed in segment k.
pub proof fn lemma_boundary_opens_segment(ms: Seq<MessageView>, i: int)
    requires
        ms.len() <= usize::MAX,
        unique_ids(ms),
        0 <= i < ms.len(),
        is_boundary(ms[i]),
    ensures
        segment_of(ms, ms[i].id) == boundary_count(ms.take(i + 1)),
        boundary_count(ms.take(i + 1)) >= 1,
{
    lemma_boundary_entry(ms, i);
    lemma_assigned_keeps(ms, ms.len(), ms[i].id);
    let t = ms.take(i + 1);
    assert(t.drop_last() =~= ms.take(i));
    assert(t.last() == ms[i]);
    lemma_boundary_count_bound(t);
}

proof fn lemma_count_push(s: Seq<MessageView>, m: MessageView)
    ensures
        boundary_count(s.push(m)) == boundary_count(s) + if is_boundary(m) {
            1nat
        } else {
            0nat
        },
{
    assert(s.push(m).drop_last() =~= s);
}

/// Boundaries among the first `n` messages that land in segment `k`.
proof fn lemma_members_boundaries(ms: Seq<MessageView>, n: int, k: usize)
    requires
        ms.len() <= usize::MAX,
        unique_ids(ms),
        0 <= n <= ms.len(),
    ensures
        boundary_count(members(ms, ms.take(n), k)) == if 1 <= k <= boundary_count(ms.take(n)) {
            1nat
        } else {
            0nat
        },
    decreases n,
{
    if n > 0 {
        let pre = ms.take(n - 1);
        lemma_members_boundaries(ms, n - 1, k);
        assert(ms.take(n).drop_last() =~= pre);
        assert(ms.take(n).last() == ms[n - 1]);
        let g = members(ms, pre, k);
        let m = ms[n - 1];
        if segment_of(ms, m.id) == k {
            lemma_count_push(g, m);
        }
        if is_boundary(m) {
            lemma_boundary_opens_segment(ms, n - 1);
        }
    } else {
        assert(ms.take(0) =~= Seq::<MessageView>::empty());
    }
}

/// With unique ids, segment 0 holds no boundary message and segment k >= 1
/// exactly one, the k-th: no split mixes two topics.
pub proof fn lemma_one_boundary_per_segment(ms: Seq<MessageView>, k: int)
    requires
        ms.len() <= usize::MAX,
        unique_ids(ms),
        0 <= k < segments(ms).len(),
    ensures
        boundary_count(segments(ms)[k]) == if k == 0 {
            0nat
        } else {
            1nat
        },
{
    lemma_boundary_count_bound(ms);
    assert(ms.take(ms.len() as int) =~= ms);
    lemma_members_boundaries(ms, ms.len() as int, k as usize);
}

pub open spec fn relink_all(g: Seq<MessageView>) -> Seq<MessageView> {
    g.map_values(|m: MessageView| relinked(g, m))
}

proof fn lemma_relink_keeps_count(g: Seq<MessageView>, n: int)
    requires
        0 <= n <= g.len(),
    ensures
        boundary_count(g.take(n).map_values(|m: MessageView| relinked(g, m))) == boundary_count(g.take(n)),
    decreases n,
{
    if n > 0 {
        lemma_relink_keeps_count(g, n - 1);
        let f = |m: MessageView| relinked(g, m);
        assert(g.take(n).map_values(f).drop_last() =~= g.take(n - 1).map_values(f));
        assert(g.take(n).drop_last() =~= g.take(n - 1));
        assert(g.take(n).map_values(f).last() == relinked(g, g[n - 1]));
        assert(g.take(n).last() == g[n - 1]);
    } else {
        assert(g.take(0).map_values(|m: MessageView| relinked(g, m)) =~= Seq::<MessageView>::empty());
    }
}

/// Splitting the head segment of a split session again finds nothing to
/// split (with unique ids): it holds no boundary.
pub proof fn lemma_head_segment_stays_whole(ms: Seq<MessageView>)
    requires
        ms.len() <= usize::MAX,
        unique_ids(ms),
    ensures
        !needs_split(segments(relink_all(segments(ms)[0]))),
{
    lemma_one_boundary_per_segment(ms, 0);
    let g = segments(ms)[0];
    lemma_relink_keeps_count(g, g.len() as int);
    assert(g.take(g.len() as int) =~= g);
    assert(boundary_count(relink_all(g)) == 0);
    assert(segments(relink_all(g)).len() == 1);
}

// ---------- the segment rule of sessions written parents first ----------

/// Every parent that is in the session comes before its child.
pub open spec fn parents_first(ms: Seq<MessageView>) -> bool {
    forall|i: int|
        #![trigger ms[i]]
        0 <= i < ms.len() ==> match ms[i].parent_id {
            Some(p) => has_id(ms, p) ==> has_id(ms.take(i), p),
            None => true,
        }
}

proof fn lemma_lookup_push_same(es: Seq<(MessageId, usize)>, x: MessageId, s: usize)
    ensures
        lookup_last(es.push((x, s)), x) == Some(s),
{
    assert(es.push((x, s)).drop_last() =~= es);
}

/// Ids with a boundary entry are ids of boundary messages.
proof fn lemma_boundary_entry_ids(ms: Seq<MessageView>, id: MessageId)
    requires
        lookup_last(boundary_entries(ms), id) is Some,
    ensures
        exists|j: int| 0 <= j < ms.len() && #[trigger] ms[j].id == id && is_boundary(ms[j]),
    decreases ms.len(),
{
    if ms.len() > 0 {
        let pre = ms.drop_last();
        let e = boundary_entries(pre);
        if is_boundary(ms.last()) && ms.last().id == id {
            assert(ms[ms.len() - 1].id == id);
        } else {
            if is_boundary(ms.last()) {
                lemma_lookup_push_other(e, ms.last().id, boundary_count(ms) as usize, id);
            }
            lemma_boundary_entry_ids(pre, id);
            let j = choose|j: int| 0 <= j < pre.len() && #[trigger] pre[j].id == id && is_boundary(pre[j]);
            assert(ms[j] == pre[j]);
        }
    }
}

/// Ids with an entry after `t` placements: boundaries, or among the first `t`.
proof fn lemma_entry_ids(ms: Seq<MessageView>, t: nat, id: MessageId)
    requires
        t <= ms.len(),
        lookup_last(assigned(ms, t), id) is Some,
    ensures
        (exists|j: int| 0 <= j < t && #[trigger] ms[j].id == id) || (exists|j: int|
            0 <= j < ms.len() && #[trigger] ms[j].id == id && is_boundary(ms[j])),
    decreases t,
{
    if t == 0 {
        lemma_boundary_entry_ids(ms, id);
    } else {
        let e = assigned(ms, (t - 1) as nat);
        let m = ms[t - 1];
        if lookup_last(e, m.id) is None && m.id == id {
            assert(ms[t - 1].id == id);
        } else {
            if lookup_last(e, m.id) is None {
                lemma_lookup_push_other(e, m.id, walk(ms, e, m.parent_id, Seq::empty(), walk_fuel(ms)), id);
            }
            lemma_entry_ids(ms, (t - 1) as nat, id);
        }
    }
}

/// An entry, once there, stays as it is.
proof fn lemma_entry_stays(ms: Seq<MessageView>, t: nat, t2: nat, id: MessageId)
    requires
        t <= t2 <= ms.len(),
        lookup_last(assigned(ms, t), id) is Some,
    ensures
        lookup_last(assigned(ms, t2), id) == lookup_last(assigned(ms, t), id),
    decreases t2,
{
    if t2 > t {
        lemma_entry_stays(ms, t, (t2 - 1) as nat, id);
        let e = assigned(ms, (t2 - 1) as nat);
        let m = ms[t2 - 1];
        if lookup_last(e, m.id) is None {
            lemma_lookup_push_other(e, m.id, walk(ms, e, m.parent_id, Seq::empty(), walk_fuel(ms)), id);
        }
    }
}

/// Every message placed so far has an entry.
proof fn lemma_placed(ms: Seq<MessageView>, t: nat, j: int)
    requires
        0 <= j < t <= ms.len(),
    ensures
        lookup_last(assigned(ms, t), ms[j].id) is Some,
    decreases t,
{
    let e = assigned(ms, (t - 1) as nat);
    let m = ms[t - 1];
    if j < t - 1 {
        lemma_placed(ms, (t - 1) as nat, j);
        lemma_entry_stays(ms, (t - 1) as nat, t, ms[j].id);
    } else if lookup_last(e, m.id) is None {
        lemma_lookup_push_same(e, m.id, walk(ms, e, m.parent_id, Seq::empty(), walk_fuel(ms)));
    }
}

proof fn lemma_last_parent_absent(ms: Seq<MessageView>, p: MessageId)
    requires
        !has_id(ms, p),
    ensures
        last_parent(ms, p) is None,
    decreases ms.len(),
{
    if ms.len() > 0 {
        assert(ms[ms.len() - 1].id != p);
        assert(!has_id(ms.drop_last(), p)) by {
            if has_id(ms.drop_last(), p) {
                let j = choose|j: int| 0 <= j < ms.drop_last().len() && #[trigger] ms.drop_last()[j].id == p;
                assert(ms[j].id == p);
            }
        }
        lemma_last_parent_absent(ms.drop_last(), p);
    }
}

/// In a session written parents first with unique ids, a message that is no
/// boundary lies in its parent's segment, or in segment 0 when its parent is
/// not in the session.
pub proof fn lemma_segment_rule(ms: Seq<MessageView>, i: int)
    requires
        unique_ids(ms),
        parents_first(ms),
        0 <= i < ms.len(),
        !is_boundary(ms[i]),
    ensures
        segment_of(ms, ms[i].id) == match ms[i].parent_id {
            Some(p) => if has_id(ms, p) {
                segment_of(ms, p)
            } else {
                0
            },
            None => 0,
        },
{
    let id = ms[i].id;
    let e = assigned(ms, i as nat);
    if lookup_last(e, id) is Some {
        lemma_entry_ids(ms, i as nat, id);
        if exists|j: int| 0 <= j < i && #[trigger] ms[j].id == id {
            let j = choose|j: int| 0 <= j < i && #[trigger] ms[j].id == id;
            assert(ms[j].id != ms[i].id);
        } else {
            let j = choose|j: int| 0 <= j < ms.len() && #[trigger] ms[j].id == id && is_boundary(ms[j]);
            if j < i {
                assert(ms[j].id != ms[i].id);
            } else if j > i {
                assert(ms[i].id != ms[j].id);
            }
        }
    }
    let w = walk(ms, e, ms[i].parent_id, Seq::empty(), walk_fuel(ms));
    assert(assigned(ms, (i + 1) as nat) == e.push((id, w)));
    lemma_lookup_push_same(e, id, w);
    lemma_entry_stays(ms, (i + 1) as nat, ms.len(), id);
    match ms[i].parent_id {
        None => {},
        Some(p) => {
            if has_id(ms, p) {
                assert(has_id(ms.take(i), p));
                let j = choose|j: int| 0 <= j < ms.take(i).len() && #[trigger] ms.take(i)[j].id == p;
                assert(ms[j].id == p);
                lemma_placed(ms, i as nat, j);
                lemma_entry_stays(ms, i as nat, ms.len(), p);
            } else {
                if lookup_last(e, p) is Some {
                    lemma_entry_ids(ms, i as nat, p);
                    if exists|j: int| 0 <= j < i && #[trigger] ms[j].id == p {
                        let j = choose|j: int| 0 <= j < i && #[trigger] ms[j].id == p;
                        assert(has_id(ms, p));
                    } else {
                        let j = choose|j: int| 0 <= j < ms.len() && #[trigger] ms[j].id == p && is_boundary(ms[j]);
                        assert(has_id(ms, p));
                    }
                }
                lemma_last_parent_absent(ms, p);
                let seen: Seq<MessageId> = Seq::empty();
                assert(!seen.contains(p));
                assert(walk(ms, e, Some(p), seen, walk_fuel(ms)) == walk(ms, e, None, seen.push(p), (walk_fuel(ms) - 1) as nat));
            }
        },
    }
}

/// Where the members of segment `k` among the first `n` messages stand in
/// the session: increasing positions, and every message of the segment
/// among them.
proof fn lemma_members_embed(ms: Seq<MessageView>, n: int, k: usize) -> (idx: Seq<int>)
    requires
        0 <= n <= ms.len(),
    ensures
        idx.len() == members(ms, ms.take(n), k).len(),
        forall|a: int|
            #![trigger idx[a]]
            0 <= a < idx.len() ==> 0 <= idx[a] < n && members(ms, ms.take(n), k)[a] == ms[idx[a]] && segment_of(
                ms,
                ms[idx[a]].id,
            ) == k,
        forall|a: int, b: int| 0 <= a < b < idx.len() ==> #[trigger] idx[a] < #[trigger] idx[b],
        forall|j: int| 0 <= j < n && segment_of(ms, #[trigger] ms[j].id) == k ==> exists|a: int| 0 <= a < idx.len() && idx[a] == j,
    decreases n,
{
    if n == 0 {
        assert(ms.take(0) =~= Seq::<MessageView>::empty());
        Seq::empty()
    } else {
        let prev = lemma_members_embed(ms, n - 1, k);
        assert(ms.take(n).drop_last() =~= ms.take(n - 1));
        assert(ms.take(n).last() == ms[n - 1]);
        if segment_of(ms, ms[n - 1].id) == k {
            let idx = prev.push(n - 1);
            assert forall|j: int| 0 <= j < n && segment_of(ms, #[trigger] ms[j].id) == k implies exists|a: int|
                0 <= a < idx.len() && idx[a] == j by {
                if j == n - 1 {
                    assert(idx[idx.len() - 1] == j);
                } else {
                    let a = choose|a: int| 0 <= a < prev.len() && prev[a] == j;
                    assert(idx[a] == j);
                }
            }
            idx
        } else {
            prev
        }
    }
}

proof fn lemma_members_len(ms: Seq<MessageView>, ps: Seq<MessageView>, k: usize)
    ensures
        members(ms, ps, k).len() <= ps.len(),
    decreases ps.len(),
{
    if ps.len() > 0 {
        lemma_members_len(ms, ps.drop_last(), k);
    }
}

proof fn lemma_count_prefix(s: Seq<MessageView>, n: int)
    requires
        0 <= n <= s.len(),
    ensures
        boundary_count(s.take(n)) <= boundary_count(s),
    decreases s.len(),
{
    if n < s.len() {
        assert(s.drop_last().take(n) =~= s.take(n));
        lemma_count_prefix(s.drop_last(), n);
    } else {
        assert(s.take(n) =~= s);
    }
}

/// What the relinked segment `k` (>= 1) of a session with unique ids is
/// like: where its messages stand in the session, ids unique, one boundary.
proof fn lemma_relinked_shape(ms: Seq<MessageView>, k: int) -> (idx: Seq<int>)
    requires
        ms.len() <= usize::MAX,
        unique_ids(ms),
        1 <= k < segments(ms).len(),
    ensures
        ({
            let g = segments(ms)[k];
            let r = relink_all(g);
            &&& idx.len() == g.len()
            &&& forall|a: int| #![trigger idx[a]] 0 <= a < idx.len() ==> 0 <= idx[a] < ms.len() && g[a] == ms[idx[a]]
                && segment_of(ms, ms[idx[a]].id) == k
            &&& forall|a: int, b: int| 0 <= a < b < idx.len() ==> #[trigger] idx[a] < #[trigger] idx[b]
            &&& forall|j: int| 0 <= j < ms.len() && segment_of(ms, #[trigger] ms[j].id) == k ==> exists|a: int|
                0 <= a < idx.len() && idx[a] == j
            &&& unique_ids(r)
            &&& boundary_count(r) == 1
            &&& r.len() <= ms.len()
        }),
{
    lemma_boundary_count_bound(ms);
    let g = segments(ms)[k];
    assert(g == members(ms, ms, k as usize));
    lemma_members_len(ms, ms, k as usize);
    assert(ms.take(ms.len() as int) =~= ms);
    let idx = lemma_members_embed(ms, ms.len() as int, k as usize);
    let r = relink_all(g);
    assert forall|a: int, b: int| 0 <= a < b < r.len() implies #[trigger] r[a].id != #[trigger] r[b].id by {
        assert(idx[a] < idx[b]);
        assert(r[a].id == ms[idx[a]].id);
        assert(r[b].id == ms[idx[b]].id);
    }
    lemma_one_boundary_per_segment(ms, k);
    lemma_relink_keeps_count(g, g.len() as int);
    assert(g.take(g.len() as int) =~= g);
    idx
}

/// With unique ids, the parent a lookup finds for a message's id is that
/// message's own parent.
proof fn lemma_last_parent_unique(ms: Seq<MessageView>, i: int)
    requires
        unique_ids(ms),
        0 <= i < ms.len(),
    ensures
        last_parent(ms, ms[i].id) == ms[i].parent_id,
    decreases ms.len(),
{
    if i < ms.len() - 1 {
        let pre = ms.drop_last();
        assert(ms[ms.len() - 1].id != ms[i].id);
        assert(unique_ids(pre)) by {
            assert forall|a: int, b: int| 0 <= a < b < pre.len() implies #[trigger] pre[a].id != #[trigger] pre[b].id by {
                assert(ms[a].id != ms[b].id);
            }
        }
        assert(pre[i] == ms[i]);
        lemma_last_parent_unique(pre, i);
    }
}

/// An id with a parent found is the id of a message of the list.
proof fn lemma_last_parent_some(ms: Seq<MessageView>, id: MessageId)
    requires
        last_parent(ms, id) is Some,
    ensures
        has_id(ms, id),
    decreases ms.len(),
{
    if ms.last().id == id {
        assert(ms[ms.len() - 1].id == id);
    } else {
        lemma_last_parent_some(ms.drop_last(), id);
        let j = choose|j: int| 0 <= j < ms.drop_last().len() && #[trigger] ms.drop_last()[j].id == id;
        assert(ms[j].id == id);
    }
}

/// A walk that finds a segment went up a chain of distinct ids, none seen
/// before, each without an entry but the last, which has the segment found.
proof fn lemma_walk_chain(
    ms: Seq<MessageView>,
    es: Seq<(MessageId, usize)>,
    cur: Option<MessageId>,
    seen: Seq<MessageId>,
    fuel: nat,
) -> (c: Seq<MessageId>)
    requires
        walk(ms, es, cur, seen, fuel) != 0,
    ensures
        1 <= c.len() <= fuel,
        cur == Some(c[0]),
        forall|m: int|
            0 <= m < c.len() - 1 ==> lookup_last(es, #[trigger] c[m]) is None && last_parent(ms, c[m]) == Some(
                c[m + 1],
            ),
        lookup_last(es, c.last()) == Some(walk(ms, es, cur, seen, fuel)),
        c.no_duplicates(),
        forall|m: int| 0 <= m < c.len() ==> !seen.contains(#[trigger] c[m]),
    decreases fuel,
{
    let p = cur->0;
    match lookup_last(es, p) {
        Some(s) => seq![p],
        None => {
            let rest = lemma_walk_chain(ms, es, last_parent(ms, p), seen.push(p), (fuel - 1) as nat);
            let c = seq![p] + rest;
            assert forall|m: int| 0 <= m < rest.len() implies #[trigger] rest[m] != p by {
                assert(!seen.push(p).contains(rest[m]));
                assert(seen.push(p)[seen.len() as int] == p);
            }
            assert forall|m: int| 0 <= m < c.len() - 1 implies lookup_last(es, #[trigger] c[m]) is None && last_parent(
                ms,
                c[m],
            ) == Some(c[m + 1]) by {
                if m > 0 {
                    assert(c[m] == rest[m - 1]);
                    assert(c[m + 1] == rest[m]);
                }
            }
            assert forall|m: int| 0 <= m < c.len() implies !seen.contains(#[trigger] c[m]) by {
                if m > 0 {
                    assert(c[m] == rest[m - 1]);
                    assert(!seen.push(p).contains(rest[m - 1]));
                    if seen.contains(rest[m - 1]) {
                        let q = choose|q: int| 0 <= q < seen.len() && seen[q] == rest[m - 1];
                        assert(seen.push(p)[q] == rest[m - 1]);
                    }
                }
            }
            assert forall|a: int, b: int| 0 <= a < c.len() && 0 <= b < c.len() && a != b implies c[a] != c[b] by {
                if a > 0 && b > 0 {
                    assert(c[a] == rest[a - 1]);
                    assert(c[b] == rest[b - 1]);
                } else if a == 0 {
                    assert(c[b] == rest[b - 1]);
                } else {
                    assert(c[a] == rest[a - 1]);
                }
            }
            assert(c.last() == rest.last());
            c
        },
    }
}

/// A walk up a chain of unseen, distinct ids, linked parent to parent,
/// whose entries all hold `v` and whose last has one, finds `v`.
proof fn lemma_walk_follow(
    ms: Seq<MessageView>,
    es: Seq<(MessageId, usize)>,
    c: Seq<MessageId>,
    j: int,
    seen: Seq<MessageId>,
    fuel: nat,
    v: usize,
)
    requires
        0 <= j < c.len(),
        c.no_duplicates(),
        forall|m: int| j <= m < c.len() - 1 ==> last_parent(ms, #[trigger] c[m]) == Some(c[m + 1]),
        forall|m: int| j <= m < c.len() ==> !seen.contains(#[trigger] c[m]),
        fuel >= c.len() - j,
        lookup_last(es, c.last()) is Some,
        forall|m: int|
            j <= m < c.len() ==> (lookup_last(es, #[trigger] c[m]) is Some ==> lookup_last(es, c[m]) == Some(v)),
    ensures
        walk(ms, es, Some(c[j]), seen, fuel) == v,
    decreases c.len() - j,
{
    assert(!seen.contains(c[j]));
    if lookup_last(es, c[j]) is None {
        assert(j < c.len() - 1);
        assert(last_parent(ms, c[j]) == Some(c[j + 1]));
        assert forall|m: int| j + 1 <= m < c.len() implies !seen.push(c[j]).contains(#[trigger] c[m]) by {
            assert(c[m] != c[j]);
            if seen.push(c[j]).contains(c[m]) {
                let q = choose|q: int| 0 <= q < seen.push(c[j]).len() && seen.push(c[j])[q] == c[m];
                if q < seen.len() {
                    assert(seen[q] == c[m]);
                }
            }
        }
        lemma_walk_follow(ms, es, c, j + 1, seen.push(c[j]), (fuel - 1) as nat, v);
    }
}

/// Boundary entries hold segments from 1 to the number of boundaries.
proof fn lemma_boundary_entry_values(s: Seq<MessageView>, id: MessageId)
    requires
        s.len() <= usize::MAX,
        lookup_last(boundary_entries(s), id) is Some,
    ensures
        1 <= lookup_last(boundary_entries(s), id)->0 <= boundary_count(s),
    decreases s.len(),
{
    let pre = s.drop_last();
    let e = boundary_entries(pre);
    lemma_boundary_count_bound(s);
    if is_boundary(s.last()) && s.last().id == id {
        lemma_lookup_push_same(e, id, boundary_count(s) as usize);
    } else {
        if is_boundary(s.last()) {
            lemma_lookup_push_other(e, s.last().id, boundary_count(s) as usize, id);
        }
        lemma_boundary_entry_values(pre, id);
    }
}

/// Along a chain that led a message to segment `k`, every entry made later
/// is `k` too: the messages of the chain, placed later, walk up the same
/// chain.
proof fn lemma_chain_entries(ms: Seq<MessageView>, c: Seq<MessageId>, t0: nat, k: usize, t: nat)
    requires
        unique_ids(ms),
        t0 <= t <= ms.len(),
        1 <= c.len() <= walk_fuel(ms),
        c.no_duplicates(),
        forall|m: int|
            0 <= m < c.len() - 1 ==> lookup_last(assigned(ms, t0), #[trigger] c[m]) is None && last_parent(ms, c[m])
                == Some(c[m + 1]),
        lookup_last(assigned(ms, t0), c.last()) == Some(k),
    ensures
        forall|m: int|
            0 <= m < c.len() ==> (lookup_last(assigned(ms, t), #[trigger] c[m]) is Some ==> lookup_last(
                assigned(ms, t),
                c[m],
            ) == Some(k)),
    decreases t,
{
    if t > t0 {
        lemma_chain_entries(ms, c, t0, k, (t - 1) as nat);
        let e = assigned(ms, (t - 1) as nat);
        let x = ms[t - 1];
        lemma_entry_stays(ms, t0, (t - 1) as nat, c.last());
        assert(lookup_last(e, c[c.len() - 1]) == Some(k));
        if lookup_last(e, x.id) is None {
            let w = walk(ms, e, x.parent_id, Seq::empty(), walk_fuel(ms));
            assert(assigned(ms, t) == e.push((x.id, w)));
            if exists|m: int| 0 <= m < c.len() && #[trigger] c[m] == x.id {
                let m = choose|m: int| 0 <= m < c.len() && #[trigger] c[m] == x.id;
                assert(m != c.len() - 1);
                lemma_last_parent_unique(ms, t - 1);
                assert(x.parent_id == Some(c[m + 1]));
                lemma_walk_follow(ms, e, c, m + 1, Seq::empty(), walk_fuel(ms), k);
                assert forall|l: int| 0 <= l < c.len() && lookup_last(assigned(ms, t), #[trigger] c[l]) is Some implies lookup_last(
                    assigned(ms, t),
                    c[l],
                ) == Some(k) by {
                    if l == m {
                        lemma_lookup_push_same(e, x.id, w);
                    } else {
                        assert(c[l] != c[m]);
                        lemma_lookup_push_other(e, x.id, w, c[l]);
                    }
                }
            } else {
                assert forall|l: int| 0 <= l < c.len() && lookup_last(assigned(ms, t), #[trigger] c[l]) is Some implies lookup_last(
                    assigned(ms, t),
                    c[l],
                ) == Some(k) by {
                    lemma_lookup_push_other(e, x.id, w, c[l]);
                }
            }
        }
    }
}

/// Distinct ids that all occur in a list are no more than its messages.
proof fn lemma_distinct_within(c: Seq<MessageId>, r: Seq<MessageView>)
    requires
        c.no_duplicates(),
        forall|m: int| 0 <= m < c.len() ==> has_id(r, #[trigger] c[m]),
    ensures
        c.len() <= r.len(),
{
    let ids = r.map_values(|x: MessageView| x.id);
    c.unique_seq_to_set();
    ids.lemma_cardinality_of_set();
    assert(c.to_set().subset_of(ids.to_set())) by {
        assert forall|x: MessageId| c.to_set().contains(x) implies ids.to_set().contains(x) by {
            let m = choose|m: int| 0 <= m < c.len() && c[m] == x;
            assert(has_id(r, c[m]));
            let j = choose|j: int| 0 <= j < r.len() && #[trigger] r[j].id == c[m];
            assert(ids[j] == x);
        }
    }
    vstd::seq_lib::seq_to_set_is_finite(ids);
    vstd::set_lib::lemma_len_subset(c.to_set(), ids.to_set());
}

/// The walk of a message of a relinked segment (>= 1) finds segment 1,
/// while every entry made before it is 1: in the whole session the message
/// went up a chain of its own segment to an entry, and the same chain,
/// kept whole by the relinking, leads to an entry of the relinked segment.
proof fn lemma_relinked_walk(ms: Seq<MessageView>, k: int, idx: Seq<int>, t: int)
    requires
        ms.len() <= usize::MAX,
        unique_ids(ms),
        1 <= k < segments(ms).len(),
        ({
            let g = segments(ms)[k];
            let r = relink_all(g);
            &&& idx.len() == g.len()
            &&& forall|a: int| #![trigger idx[a]] 0 <= a < idx.len() ==> 0 <= idx[a] < ms.len() && g[a] == ms[idx[a]]
                && segment_of(ms, ms[idx[a]].id) == k
            &&& forall|a: int, b: int| 0 <= a < b < idx.len() ==> #[trigger] idx[a] < #[trigger] idx[b]
            &&& forall|j: int| 0 <= j < ms.len() && segment_of(ms, #[trigger] ms[j].id) == k ==> exists|a: int|
                0 <= a < idx.len() && idx[a] == j
            &&& unique_ids(r)
            &&& boundary_count(r) == 1
            &&& r.len() <= ms.len()
        }),
        0 <= t < segments(ms)[k].len(),
        forall|id: MessageId|
            #[trigger] lookup_last(assigned(relink_all(segments(ms)[k]), t as nat), id) is Some ==> lookup_last(
                assigned(relink_all(segments(ms)[k]), t as nat),
                id,
            ) == Some(1usize),
        lookup_last(assigned(relink_all(segments(ms)[k]), t as nat), relink_all(segments(ms)[k])[t].id) is None,
    ensures
        walk(
            relink_all(segments(ms)[k]),
            assigned(relink_all(segments(ms)[k]), t as nat),
            relink_all(segments(ms)[k])[t].parent_id,
            Seq::empty(),
            walk_fuel(relink_all(segments(ms)[k])),
        ) == 1,
{
    let g = segments(ms)[k];
    let r = relink_all(g);
    let er = assigned(r, t as nat);
    let i = idx[t];
    let y = ms[i];
    assert(g[t] == y);
    assert(r[t] == relinked(g, y));
    if is_boundary(y) {
        assert(is_boundary(r[t]));
        lemma_boundary_entry(r, t);
        lemma_entry_stays(r, 0, t as nat, r[t].id);
        assert(false);
    }
    let e = assigned(ms, i as nat);
    if lookup_last(e, y.id) is Some {
        lemma_entry_ids(ms, i as nat, y.id);
        if exists|j: int| 0 <= j < i && #[trigger] ms[j].id == y.id {
            let j = choose|j: int| 0 <= j < i && #[trigger] ms[j].id == y.id;
            assert(ms[j].id != ms[i].id);
        } else {
            let j = choose|j: int| 0 <= j < ms.len() && #[trigger] ms[j].id == y.id && is_boundary(ms[j]);
            if j < i {
                assert(ms[j].id != ms[i].id);
            } else if j > i {
                assert(ms[i].id != ms[j].id);
            }
        }
        assert(false);
    }
    let w = walk(ms, e, y.parent_id, Seq::empty(), walk_fuel(ms));
    assert(assigned(ms, (i + 1) as nat) == e.push((y.id, w)));
    lemma_lookup_push_same(e, y.id, w);
    lemma_entry_stays(ms, (i + 1) as nat, ms.len(), y.id);
    assert(segment_of(ms, ms[idx[t]].id) == k);
    assert(w == k);
    let c = lemma_walk_chain(ms, e, y.parent_id, Seq::empty(), walk_fuel(ms));
    lemma_chain_entries(ms, c, i as nat, k as usize, ms.len());
    lemma_entry_ids(ms, i as nat, c.last());
    // every id of the chain lies in segment k, hence in the relinked segment
    assert forall|m: int| 0 <= m < c.len() implies has_id(r, #[trigger] c[m]) && has_id(g, c[m]) by {
        let j: int = if m < c.len() - 1 {
            lemma_last_parent_some(ms, c[m]);
            choose|j: int| 0 <= j < ms.len() && #[trigger] ms[j].id == c[m]
        } else if exists|j: int| 0 <= j < i && #[trigger] ms[j].id == c.last() {
            choose|j: int| 0 <= j < i && #[trigger] ms[j].id == c.last()
        } else {
            choose|j: int| 0 <= j < ms.len() && #[trigger] ms[j].id == c.last() && is_boundary(ms[j])
        };
        assert(ms[j].id == c[m]);
        lemma_placed(ms, ms.len(), j);
        assert(segment_of(ms, ms[j].id) == k);
        let a = choose|a: int| 0 <= a < idx.len() && idx[a] == j;
        assert(g[a] == ms[idx[a]]);
        assert(r[a].id == c[m]);
        assert(g[a].id == c[m]);
    }
    // the chain's links survive the relinking
    assert forall|m: int| 0 <= m < c.len() - 1 implies last_parent(r, #[trigger] c[m]) == Some(c[m + 1]) by {
        let a = choose|a: int| 0 <= a < r.len() && #[trigger] r[a].id == c[m];
        lemma_last_parent_unique(r, a);
        assert(g[a] == ms[idx[a]]);
        assert(r[a] == relinked(g, ms[idx[a]]));
        lemma_last_parent_unique(ms, idx[a]);
        assert(has_id(g, c[m + 1]));
    }
    assert(has_id(g, c[0]));
    assert(r[t].parent_id == Some(c[0]));
    // the chain's last id has an entry in the relinked segment already
    if exists|j: int| 0 <= j < i && #[trigger] ms[j].id == c.last() {
        let j = choose|j: int| 0 <= j < i && #[trigger] ms[j].id == c.last();
        lemma_placed(ms, ms.len(), j);
        let a = choose|a: int| 0 <= a < idx.len() && idx[a] == j;
        if a >= t {
            if a > t {
                assert(idx[t] < idx[a]);
            }
        }
        assert(g[a] == ms[idx[a]]);
        lemma_placed(r, t as nat, a);
        assert(r[a].id == c.last());
    } else {
        let j = choose|j: int| 0 <= j < ms.len() && #[trigger] ms[j].id == c.last() && is_boundary(ms[j]);
        lemma_placed(ms, ms.len(), j);
        let a = choose|a: int| 0 <= a < idx.len() && idx[a] == j;
        assert(g[a] == ms[idx[a]]);
        assert(r[a] == relinked(g, ms[j]));
        assert(is_boundary(r[a]));
        lemma_boundary_entry(r, a);
        lemma_entry_stays(r, 0, t as nat, r[a].id);
        assert(r[a].id == c.last());
    }
    lemma_distinct_within(c, r);
    lemma_walk_follow(r, er, c, 0, Seq::empty(), walk_fuel(r), 1);
}

/// Every entry of a relinked segment (>= 1) is segment 1.
proof fn lemma_relinked_entries(ms: Seq<MessageView>, k: int, idx: Seq<int>, t: nat)
    requires
        ms.len() <= usize::MAX,
        unique_ids(ms),
        1 <= k < segments(ms).len(),
        ({
            let g = segments(ms)[k];
            let r = relink_all(g);
            &&& idx.len() == g.len()
            &&& forall|a: int| #![trigger idx[a]] 0 <= a < idx.len() ==> 0 <= idx[a] < ms.len() && g[a] == ms[idx[a]]
                && segment_of(ms, ms[idx[a]].id) == k
            &&& forall|a: int, b: int| 0 <= a < b < idx.len() ==> #[trigger] idx[a] < #[trigger] idx[b]
            &&& forall|j: int| 0 <= j < ms.len() && segment_of(ms, #[trigger] ms[j].id) == k ==> exists|a: int|
                0 <= a < idx.len() && idx[a] == j
            &&& unique_ids(r)
            &&& boundary_count(r) == 1
            &&& r.len() <= ms.len()
        }),
        t <= segments(ms)[k].len(),
    ensures
        forall|id: MessageId|
            #[trigger] lookup_last(assigned(relink_all(segments(ms)[k]), t), id) is Some ==> lookup_last(
                assigned(relink_all(segments(ms)[k]), t),
                id,
            ) == Some(1usize),
    decreases t,
{
    let g = segments(ms)[k];
    let r = relink_all(g);
    if t == 0 {
        assert forall|id: MessageId| lookup_last(assigned(r, t), id) is Some implies lookup_last(assigned(r, t), id)
            == Some(1usize) by {
            lemma_boundary_entry_values(r, id);
        }
    } else {
        lemma_relinked_entries(ms, k, idx, (t - 1) as nat);
        let e = assigned(r, (t - 1) as nat);
        let x = r[t - 1];
        if lookup_last(e, x.id) is None {
            lemma_relinked_walk(ms, k, idx, t - 1);
            let w = walk(r, e, x.parent_id, Seq::empty(), walk_fuel(r));
            assert(assigned(r, t) == e.push((x.id, w)));
            assert forall|id: MessageId| lookup_last(assigned(r, t), id) is Some implies lookup_last(
                assigned(r, t),
                id,
            ) == Some(1usize) by {
                if id == x.id {
                    lemma_lookup_push_same(e, x.id, w);
                } else {
                    lemma_lookup_push_other(e, x.id, w, id);
                }
            }
        }
    }
}

/// Splitting a segment of a split session again finds nothing to split
/// (with unique ids): each segment holds messages of one topic only.
pub proof fn lemma_split_segments_stay_whole(ms: Seq<MessageView>, k: int)
    requires
        ms.len() <= usize::MAX,
        unique_ids(ms),
        0 <= k < segments(ms).len(),
    ensures
        !needs_split(segments(relink_all(segments(ms)[k]))),
{
    if k == 0 {
        lemma_head_segment_stays_whole(ms);
    } else {
        let idx = lemma_relinked_shape(ms, k);
        let g = segments(ms)[k];
        let r = relink_all(g);
        let ridx = lemma_members_embed(r, r.len() as int, 0);
        assert(r.take(r.len() as int) =~= r);
        if ridx.len() > 0 {
            let c = ridx[0];
            lemma_relinked_entries(ms, k, idx, r.len());
            lemma_placed(r, r.len(), c);
            assert(segment_of(r, r[c].id) == 1);
        }
        assert(segments(r).len() == 2);
        assert(segments(r)[0] == members(r, r, 0));
        assert(segments(r)[0].len() == 0);
    }
}

// ---------- the segments partition the session ----------

/// `g` is segment `k` of `ms` at positions `idx`: the messages of `ms` in
/// that segment, each once, in their order in `ms`.
pub open spec fn group_positions(ms: Seq<MessageView>, g: Seq<MessageView>, k: int, idx: Seq<int>) -> bool {
    &&& idx.len() == g.len()
    &&& forall|a: int| #![trigger idx[a]] 0 <= a < idx.len() ==> 0 <= idx[a] < ms.len() && g[a] == ms[idx[a]] && segment_of(ms, ms[idx[a]].id) == k
    &&& forall|a: int, b: int| 0 <= a < b < idx.len() ==> #[trigger] idx[a] < #[trigger] idx[b]
    &&& forall|j: int| 0 <= j < ms.len() && segment_of(ms, #[trigger] ms[j].id) == k ==> exists|a: int| 0 <= a < idx.len() && idx[a] == j
}

proof fn lemma_lookup_value(es: Seq<(MessageId, usize)>, id: MessageId)
    requires
        lookup_last(es, id) is Some,
    ensures
        exists|j: int| 0 <= j < es.len() && (#[trigger] es[j]).1 == lookup_last(es, id)->0,
    decreases es.len(),
{
    if es.last().0 == id {
        assert(es[es.len() - 1].1 == lookup_last(es, id)->0);
    } else {
        lemma_lookup_value(es.drop_last(), id);
        let j = choose|j: int| 0 <= j < es.drop_last().len() && (#[trigger] es.drop_last()[j]).1 == lookup_last(es.drop_last(), id)->0;
        assert(es[j] == es.drop_last()[j]);
    }
}

proof fn lemma_boundary_entries_bounded(ms: Seq<MessageView>)
    requires
        ms.len() <= usize::MAX,
    ensures
        forall|j: int| 0 <= j < boundary_entries(ms).len() ==> (#[trigger] boundary_entries(ms)[j]).1 <= boundary_count(ms),
    decreases ms.len(),
{
    if ms.len() > 0 {
        let pre = ms.drop_last();
        lemma_boundary_entries_bounded(pre);
        lemma_boundary_count_bound(ms);
        let e = boundary_entries(pre);
        if is_boundary(ms.last()) {
            let f = e.push((ms.last().id, boundary_count(ms) as usize));
            assert forall|j: int| 0 <= j < f.len() implies (#[trigger] f[j]).1 <= boundary_count(ms) by {
                if j < e.len() {
                    assert(f[j] == e[j]);
                }
            }
        }
    }
}

proof fn lemma_assigned_bounded(ms: Seq<MessageView>, t: nat)
    requires
        ms.len() <= usize::MAX,
        t <= ms.len(),
    ensures
        forall|j: int| 0 <= j < assigned(ms, t).len() ==> (#[trigger] assigned(ms, t)[j]).1 <= boundary_count(ms),
    decreases t,
{
    if t == 0 {
        lemma_boundary_entries_bounded(ms);
    } else {
        lemma_assigned_bounded(ms, (t - 1) as nat);
        let e = assigned(ms, (t - 1) as nat);
        let m = ms[t - 1];
        if lookup_last(e, m.id) is None {
            let w = walk(ms, e, m.parent_id, Seq::empty(), walk_fuel(ms));
            if w != 0 {
                let c = lemma_walk_chain(ms, e, m.parent_id, Seq::empty(), walk_fuel(ms));
                lemma_lookup_value(e, c.last());
            }
            let f = e.push((m.id, w));
            assert forall|j: int| 0 <= j < f.len() implies (#[trigger] f[j]).1 <= boundary_count(ms) by {
                if j < e.len() {
                    assert(f[j] == e[j]);
                }
            }
        }
    }
}

/// The segments partition a session: one more segment than boundaries;
/// every message lies in the segment of its index, which is one of them; and
/// each segment holds exactly the messages of that index, each once, in
/// their order in the session.
pub proof fn lemma_segments_partition(ms: Seq<MessageView>, k: int)
    requires
        ms.len() <= usize::MAX,
        0 <= k < segments(ms).len(),
    ensures
        segments(ms).len() == boundary_count(ms) + 1,
        forall|j: int| 0 <= j < ms.len() ==> (#[trigger] segment_of(ms, ms[j].id)) < segments(ms).len(),
        exists|idx: Seq<int>| group_positions(ms, segments(ms)[k], k, idx),
{
    lemma_boundary_count_bound(ms);
    lemma_assigned_bounded(ms, ms.len());
    assert forall|j: int| 0 <= j < ms.len() implies (#[trigger] segment_of(ms, ms[j].id)) < segments(ms).len() by {
        let id = ms[j].id;
        if lookup_last(final_entries(ms), id) is Some {
            lemma_lookup_value(final_entries(ms), id);
        }
    }
    assert(segments(ms)[k] == members(ms, ms, k as usize));
    assert(ms.take(ms.len() as int) =~= ms);
    let idx = lemma_members_embed(ms, ms.len() as int, k as usize);
    assert(group_positions(ms, segments(ms)[k], k, idx));
}

// ---------- the segment of a message is that of its nearest boundary ----------

proof fn lemma_chain_det(ms: Seq<MessageView>, z: Seq<MessageId>, t1: int, t2: int, k: int)
    requires
        0 <= t1 < t2,
        0 <= k,
        t2 + k < z.len(),
        forall|t: int| 0 <= t < z.len() - 1 ==> last_parent(ms, #[trigger] z[t]) == Some(z[t + 1]),
        z[t1] == z[t2],
    ensures
        z[t1 + k] == z[t2 + k],
    decreases k,
{
    if k > 0 {
        lemma_chain_det(ms, z, t1, t2, k - 1);
        assert(last_parent(ms, z[t1 + k - 1]) == Some(z[t1 + k]));
        assert(last_parent(ms, z[t2 + k - 1]) == Some(z[t2 + k]));
    }
}

/// A chain without boundary entries that leads into another chain ending at
/// a boundary never meets it: following parents is deterministic, so a
/// meeting would make the second chain repeat itself.
proof fn lemma_chains_disjoint(ms: Seq<MessageView>, b: Seq<(MessageId, usize)>, c: Seq<MessageId>, d: Seq<MessageId>)
    requires
        c.no_duplicates(),
        d.no_duplicates(),
        d.len() >= 1,
        forall|t: int| 0 <= t < (c + d).len() - 1 ==> last_parent(ms, #[trigger] (c + d)[t]) == Some((c + d)[t + 1]),
        forall|m: int| 0 <= m < c.len() ==> lookup_last(b, #[trigger] c[m]) is None,
        lookup_last(b, d.last()) is Some,
    ensures
        (c + d).no_duplicates(),
{
    let z = c + d;
    let n = c.len() as int;
    assert forall|t1: int, t2: int| 0 <= t1 < z.len() && 0 <= t2 < z.len() && t1 != t2 implies z[t1] != z[t2] by {
        if z[t1] == z[t2] {
            let (a1, a2) = if t1 < t2 { (t1, t2) } else { (t2, t1) };
            if a2 < n {
                assert(z[a1] == c[a1] && z[a2] == c[a2]);
            } else if a1 >= n {
                assert(z[a1] == d[a1 - n] && z[a2] == d[a2 - n]);
            } else {
                let k = z.len() - 1 - a2;
                lemma_chain_det(ms, z, a1, a2, k);
                assert(z[a2 + k] == d.last());
                if a1 + k < n {
                    assert(z[a1 + k] == c[a1 + k]);
                } else {
                    assert(z[a1 + k] == d[a1 + k - n]);
                    assert(d[d.len() - 1] == d.last());
                }
            }
        }
    }
}

proof fn lemma_boundary_entry_in_assigned(ms: Seq<MessageView>, t: nat, id: MessageId)
    requires
        t <= ms.len(),
        lookup_last(assigned(ms, t), id) is None,
    ensures
        lookup_last(boundary_entries(ms), id) is None,
{
    if lookup_last(boundary_entries(ms), id) is Some {
        lemma_assigned_keeps(ms, t, id);
    }
}

/// With unique ids, a message that is no boundary lies in the segment of its
/// nearest boundary ancestor along the parent links (segment 0 when the
/// links end, leave the session or come back on themselves before one):
/// exactly what a walk up its parents over the boundaries alone finds.
pub proof fn lemma_nearest_boundary(ms: Seq<MessageView>, i: int)
    requires
        unique_ids(ms),
        0 <= i < ms.len(),
        !is_boundary(ms[i]),
    ensures
        segment_of(ms, ms[i].id) == walk(ms, boundary_entries(ms), ms[i].parent_id, Seq::empty(), walk_fuel(ms)),
    decreases i,
{
    let b = boundary_entries(ms);
    let f = walk_fuel(ms);
    let id = ms[i].id;
    let e = assigned(ms, i as nat);
    if lookup_last(e, id) is Some {
        lemma_entry_ids(ms, i as nat, id);
        if exists|j: int| 0 <= j < i && #[trigger] ms[j].id == id {
            let j = choose|j: int| 0 <= j < i && #[trigger] ms[j].id == id;
            assert(ms[j].id != ms[i].id);
        } else {
            let j = choose|j: int| 0 <= j < ms.len() && #[trigger] ms[j].id == id && is_boundary(ms[j]);
            if j < i {
                assert(ms[j].id != ms[i].id);
            } else if j > i {
                assert(ms[i].id != ms[j].id);
            }
        }
    }
    let w = walk(ms, e, ms[i].parent_id, Seq::empty(), f);
    assert(assigned(ms, (i + 1) as nat) == e.push((id, w)));
    lemma_lookup_push_same(e, id, w);
    lemma_entry_stays(ms, (i + 1) as nat, ms.len(), id);
    assert(segment_of(ms, id) == w);
    let wb = walk(ms, b, ms[i].parent_id, Seq::empty(), f);
    if w == 0 {
        if wb != 0 {
            let d = lemma_walk_chain(ms, b, ms[i].parent_id, Seq::empty(), f);
            lemma_assigned_keeps(ms, i as nat, d.last());
            // the first element of d with an entry in e
            let l = choose|l: int|
                0 <= l < d.len() && lookup_last(e, #[trigger] d[l]) is Some && forall|q: int|
                    0 <= q < l ==> lookup_last(e, #[trigger] d[q]) is None;
            assert(exists|l: int|
                0 <= l < d.len() && lookup_last(e, #[trigger] d[l]) is Some && forall|q: int|
                    0 <= q < l ==> lookup_last(e, #[trigger] d[q]) is None) by {
                lemma_first_with_entry(e, d);
            }
            let dp = d.take(l + 1);
            let u = lookup_last(e, d[l])->0;
            assert forall|m: int| 0 <= m < dp.len() - 1 implies last_parent(ms, #[trigger] dp[m]) == Some(dp[m + 1]) by {
                assert(dp[m] == d[m] && dp[m + 1] == d[m + 1]);
            }
            assert(dp.last() == d[l]);
            assert(dp.no_duplicates()) by {
                assert forall|a: int, c2: int| 0 <= a < dp.len() && 0 <= c2 < dp.len() && a != c2 implies dp[a] != dp[c2] by {
                    assert(dp[a] == d[a] && dp[c2] == d[c2]);
                }
            }
            assert forall|m: int| 0 <= m < dp.len() implies (lookup_last(e, #[trigger] dp[m]) is Some ==> lookup_last(e, dp[m]) == Some(u)) by {
                assert(dp[m] == d[m]);
            }
            lemma_walk_follow(ms, e, dp, 0, Seq::empty(), f, u);
            assert(u == 0);
            if lookup_last(b, d[l]) is Some {
                lemma_assigned_keeps(ms, i as nat, d[l]);
                lemma_boundary_count_bound(ms);
                lemma_boundary_entry_values_any(ms, d[l]);
            } else {
                // d[l] is a message placed before i, no boundary
                lemma_entry_ids(ms, i as nat, d[l]);
                if exists|j: int| 0 <= j < i && #[trigger] ms[j].id == d[l] {
                    let j = choose|j: int| 0 <= j < i && #[trigger] ms[j].id == d[l];
                    if is_boundary(ms[j]) {
                        lemma_boundary_entry(ms, j);
                    }
                    lemma_nearest_boundary(ms, j);
                    lemma_entry_stays(ms, i as nat, ms.len(), d[l]);
                    assert(l < d.len() - 1);
                    lemma_last_parent_unique(ms, j);
                    assert forall|m: int| l + 1 <= m < d.len() implies !Seq::<MessageId>::empty().contains(#[trigger] d[m]) by {}
                    assert forall|m: int|
                        l + 1 <= m < d.len() implies (lookup_last(b, #[trigger] d[m]) is Some ==> lookup_last(b, d[m]) == Some(wb)) by {
                    }
                    lemma_walk_follow(ms, b, d, l + 1, Seq::empty(), f, wb);
                } else {
                    let j = choose|j: int| 0 <= j < ms.len() && #[trigger] ms[j].id == d[l] && is_boundary(ms[j]);
                    lemma_boundary_entry(ms, j);
                }
            }
        }
    } else {
        let c = lemma_walk_chain(ms, e, ms[i].parent_id, Seq::empty(), f);
        let y = c.last();
        assert forall|m: int| 0 <= m < c.len() - 1 implies lookup_last(b, #[trigger] c[m]) is None by {
            lemma_boundary_entry_in_assigned(ms, i as nat, c[m]);
        }
        if lookup_last(b, y) is Some {
            lemma_assigned_keeps(ms, i as nat, y);
            assert forall|m: int| 0 <= m < c.len() implies (lookup_last(b, #[trigger] c[m]) is Some ==> lookup_last(b, c[m]) == Some(w)) by {
            }
            assert forall|m: int| 0 <= m < c.len() - 1 implies last_parent(ms, #[trigger] c[m]) == Some(c[m + 1]) by {}
            lemma_walk_follow(ms, b, c, 0, Seq::empty(), f, w);
        } else {
            lemma_entry_ids(ms, i as nat, y);
            if exists|j: int| 0 <= j < i && #[trigger] ms[j].id == y {
                let j = choose|j: int| 0 <= j < i && #[trigger] ms[j].id == y;
                if is_boundary(ms[j]) {
                    lemma_boundary_entry(ms, j);
                }
                lemma_nearest_boundary(ms, j);
                lemma_entry_stays(ms, i as nat, ms.len(), y);
                lemma_last_parent_unique(ms, j);
                // the walk from j's parent over the boundaries finds w
                let d = lemma_walk_chain(ms, b, ms[j].parent_id, Seq::empty(), f);
                let z = c + d;
                assert forall|t: int| 0 <= t < z.len() - 1 implies last_parent(ms, #[trigger] z[t]) == Some(z[t + 1]) by {
                    if t < c.len() - 1 {
                        assert(z[t] == c[t] && z[t + 1] == c[t + 1]);
                    } else if t == c.len() - 1 {
                        assert(z[t] == y && z[t + 1] == d[0]);
                    } else {
                        assert(z[t] == d[t - c.len()] && z[t + 1] == d[t + 1 - c.len()]);
                    }
                }
                assert forall|m: int| 0 <= m < c.len() implies lookup_last(b, #[trigger] c[m]) is None by {
                    if m < c.len() - 1 {
                        lemma_boundary_entry_in_assigned(ms, i as nat, c[m]);
                    }
                }
                lemma_chains_disjoint(ms, b, c, d);
                // every id of z is an id of the session
                assert forall|t: int| 0 <= t < z.len() implies has_id(ms, #[trigger] z[t]) by {
                    if t < z.len() - 1 {
                        lemma_last_parent_some(ms, z[t]);
                    } else {
                        assert(z[t] == d.last());
                        lemma_boundary_entry_ids(ms, d.last());
                        let q = choose|q: int| 0 <= q < ms.len() && #[trigger] ms[q].id == d.last() && is_boundary(ms[q]);
                        assert(ms[q].id == z[t]);
                    }
                }
                lemma_distinct_within(z, ms);
                assert(z.last() == d.last());
                assert forall|m: int| 0 <= m < z.len() implies (lookup_last(b, #[trigger] z[m]) is Some ==> lookup_last(b, z[m]) == Some(w)) by {
                    if m < c.len() {
                        assert(z[m] == c[m]);
                    } else {
                        assert(z[m] == d[m - c.len()]);
                        if m - c.len() < d.len() - 1 {
                        }
                    }
                }
                lemma_walk_follow(ms, b, z, 0, Seq::empty(), f, w);
                assert(z[0] == c[0]);
            } else {
                let j = choose|j: int| 0 <= j < ms.len() && #[trigger] ms[j].id == y && is_boundary(ms[j]);
                lemma_boundary_entry(ms, j);
            }
        }
    }
}

/// The first element of a chain whose last element has an entry that has
/// one.
proof fn lemma_first_with_entry(e: Seq<(MessageId, usize)>, d: Seq<MessageId>)
    requires
        d.len() > 0,
        lookup_last(e, d.last()) is Some,
    ensures
        exists|l: int|
            0 <= l < d.len() && lookup_last(e, #[trigger] d[l]) is Some && forall|q: int|
                0 <= q < l ==> lookup_last(e, #[trigger] d[q]) is None,
    decreases d.len(),
{
    if d.len() == 1 {
        assert(lookup_last(e, d[0]) is Some);
    } else if exists|q: int| 0 <= q < d.len() - 1 && lookup_last(e, #[trigger] d[q]) is Some {
        let q = choose|q: int| 0 <= q < d.len() - 1 && lookup_last(e, #[trigger] d[q]) is Some;
        let t = d.take(q + 1);
        assert(t.last() == d[q]);
        lemma_first_with_entry(e, t);
        let l = choose|l: int|
            0 <= l < t.len() && lookup_last(e, #[trigger] t[l]) is Some && forall|r: int|
                0 <= r < l ==> lookup_last(e, #[trigger] t[r]) is None;
        assert(t[l] == d[l]);
        assert forall|r: int| 0 <= r < l implies lookup_last(e, #[trigger] d[r]) is None by {
            assert(t[r] == d[r]);
        }
    } else {
        assert(lookup_last(e, d[d.len() - 1]) is Some);
    }
}

/// Boundary entries are never 0.
proof fn lemma_boundary_entry_values_any(ms: Seq<MessageView>, id: MessageId)
    requires
        ms.len() <= usize::MAX,
        lookup_last(boundary_entries(ms), id) is Some,
    ensures
        lookup_last(boundary_entries(ms), id)->0 >= 1,
{
    lemma_boundary_entry_values(ms, id);
}

/// Segment `k` is exactly the messages placed in it, each once, in session
/// order.
pub open spec fn segment_is_exact(ms: Seq<MessageView>, k: int) -> bool {
    exists|idx: Seq<int>| group_positions(ms, segments(ms)[k], k, idx)
}

/// How an old session splits, in one statement.  With unique ids: there is
/// one segment more than boundary messages; each segment is exactly the
/// messages placed in it, each once, in session order; segment 0 holds no
/// boundary and segment k >= 1 exactly one; the k-th boundary (from 1) opens
/// segment k; and every other message joins the segment of its nearest
/// boundary ancestor along the parent links (segment 0 when there is none).
pub proof fn lemma_split_law(ms: Seq<MessageView>)
    requires
        ms.len() <= usize::MAX,
        unique_ids(ms),
    ensures
        segments(ms).len() == boundary_count(ms) + 1,
        forall|k: int| 0 <= k < segments(ms).len() ==> #[trigger] segment_is_exact(ms, k),
        forall|k: int|
            0 <= k < segments(ms).len() ==> boundary_count(#[trigger] segments(ms)[k]) == if k == 0 {
                0nat
            } else {
                1nat
            },
        forall|i: int|
            0 <= i < ms.len() && is_boundary(#[trigger] ms[i]) ==> segment_of(ms, ms[i].id) == boundary_count(
                ms.take(i + 1),
            ),
        forall|i: int|
            0 <= i < ms.len() && !is_boundary(#[trigger] ms[i]) ==> segment_of(ms, ms[i].id) == walk(
                ms,
                boundary_entries(ms),
                ms[i].parent_id,
                Seq::empty(),
                walk_fuel(ms),
            ),
{
    lemma_segments_partition(ms, 0);
    assert forall|k: int| 0 <= k < segments(ms).len() implies #[trigger] segment_is_exact(ms, k) by {
        lemma_segments_partition(ms, k);
    }
    assert forall|k: int| 0 <= k < segments(ms).len() implies boundary_count(#[trigger] segments(ms)[k]) == if k
        == 0 {
        0nat
    } else {
        1nat
    } by {
        lemma_one_boundary_per_segment(ms, k);
    }
    assert forall|i: int| 0 <= i < ms.len() && is_boundary(#[trigger] ms[i]) implies segment_of(ms, ms[i].id)
        == boundary_count(ms.take(i + 1)) by {
        lemma_boundary_opens_segment(ms, i);
    }
    assert forall|i: int| 0 <= i < ms.len() && !is_boundary(#[trigger] ms[i]) implies segment_of(ms, ms[i].id)
        == walk(ms, boundary_entries(ms), ms[i].parent_id, Seq::empty(), walk_fuel(ms)) by {
        lemma_nearest_boundary(ms, i);
    }
}

// ---------- one segment as a session ----------

/// Length to which a derived goal or title is cut.
pub const DERIVE_CHARS: usize = 40;

pub open spec fn has_id(ms: Seq<MessageView>, id: MessageId) -> bool {
    exists|i: int| 0 <= i < ms.len() && #[trigger] ms[i].id == id
}

/// A message of a segment whose parent lies outside it loses the link.
pub open spec fn relinked(ms: Seq<MessageView>, m: MessageView) -> MessageView {
    MessageView {
        parent_id: match m.parent_id {
            Some(p) => if has_id(ms, p) {
                Some(p)
            } else {
                None
            },
            None => None,
        },
        ..m
    }
}

/// Relinking a segment keeps each message but its parent link, in order,
/// and keeps a link exactly when it points inside the segment, so every
/// link of the result stays within it.
pub proof fn lemma_relinked_segment(ms: Seq<MessageView>)
    ensures
        relink_all(ms).len() == ms.len(),
        forall|i: int|
            0 <= i < ms.len() ==> {
                &&& (#[trigger] relink_all(ms)[i]).id == ms[i].id
                &&& relink_all(ms)[i].kind == ms[i].kind
                &&& relink_all(ms)[i].created_at == ms[i].created_at
                &&& relink_all(ms)[i].parent_id == (if ms[i].parent_id matches Some(p) && has_id(ms, p) {
                    ms[i].parent_id
                } else {
                    None
                })
            },
        forall|i: int|
            0 <= i < ms.len() && (#[trigger] relink_all(ms)[i]).parent_id is Some ==> has_id(
                relink_all(ms),
                relink_all(ms)[i].parent_id->0,
            ),
{
    let out = relink_all(ms);
    assert forall|i: int| 0 <= i < ms.len() && (#[trigger] out[i]).parent_id is Some implies has_id(
        out,
        out[i].parent_id->0,
    ) by {
        let p = out[i].parent_id->0;
        let j = choose|j: int| 0 <= j < ms.len() && #[trigger] ms[j].id == p;
        assert(out[j].id == p);
    }
}

/// The trimmed visible text of the first user message that has one.
pub open spec fn first_user_text_of(ms: Seq<MessageView>) -> Option<Seq<char>>
    decreases ms.len(),
{
    if ms.len() == 0 {
        None
    } else {
        let rest = first_user_text_of(ms.drop_first());
        match ms[0].kind {
            KindView::User { .. } => {
                let t = crate::text::trim(crate::scheduler::visible_or_empty(ms[0]));
                if t.len() > 0 {
                    Some(t)
                } else {
                    rest
                }
            },
            _ => rest,
        }
    }
}

pub open spec fn max_created(ms: Seq<MessageView>) -> i64
    recommends
        ms.len() > 0,
    decreases ms.len(),
{
    if ms.len() <= 1 {
        ms[0].created_at
    } else {
        let m = max_created(ms.drop_last());
        if ms.last().created_at > m {
            ms.last().created_at
        } else {
            m
        }
    }
}

pub open spec fn head_opt(t: Option<Seq<char>>) -> Option<Seq<char>> {
    match t {
        Some(t) => Some(crate::text::head(t, DERIVE_CHARS as nat)),
        None => None,
    }
}

/// The metadata of segment `idx` (its messages `ms`) of a session split at
/// `now`: archived, unless it holds the old active path, whose status it
/// keeps; the head segment keeps the old goal, a boundary segment takes its
/// summary as goal; an archived segment is titled by its first user text.
pub open spec fn segment_meta(
    idx: usize,
    ms: Seq<MessageView>,
    old: crate::session::SessionMetaView,
    key: crate::session::SessionKey,
    now: i64,
) -> crate::session::SessionMetaView {
    let ap = match old.active_path {
        Some(a) => if has_id(ms, a) {
            Some(a)
        } else {
            None
        },
        None => None,
    };
    let status = if ap is Some {
        old.status
    } else {
        crate::session::SessionStatus::Archived
    };
    let created = if ms.len() > 0 {
        ms[0].created_at
    } else {
        now
    };
    crate::session::SessionMetaView {
        key,
        goal: if idx == 0 {
            old.goal
        } else {
            head_opt(boundary_text_of(ms[0]))
        },
        title: if status == crate::session::SessionStatus::Archived {
            head_opt(first_user_text_of(ms))
        } else {
            None
        },
        status,
        created_at: created,
        archived_at: if ap is Some {
            if old.status == crate::session::SessionStatus::Active {
                None
            } else {
                match old.archived_at {
                    Some(t) => Some(t),
                    None => Some(now),
                }
            }
        } else {
            Some(now)
        },
        last_activity_at: if ms.len() > 0 {
            max_created(ms)
        } else {
            created
        },
        active_path: ap,
    }
}

fn holds_id(messages: &Vec<Message>, id: MessageId) -> (b: bool)
    ensures
        b == has_id(views(messages@), id),
{
    let ghost ms = views(messages@);
    let mut i: usize = 0;
    while i < messages.len()
        invariant
            ms == views(messages@),
            i <= messages@.len(),
            forall|k: int| 0 <= k < i ==> ms[k].id != id,
        decreases messages.len() - i,
    {
        if messages[i].id == id {
            assert(ms[i as int].id == id);
            return true;
        }
        i = i + 1;
    }
    false
}

fn first_user_text(messages: &Vec<Message>) -> (r: Option<String>)
    ensures
        crate::message::opt_str(r) == first_user_text_of(views(messages@)),
{
    let ghost ms = views(messages@);
    let mut i: usize = messages.len();
    let mut found: Option<String> = None;
    proof {
        assert(ms.skip(i as int) =~= Seq::<MessageView>::empty());
    }
    while i > 0
        invariant
            ms == views(messages@),
            i <= messages@.len(),
            crate::message::opt_str(found) == first_user_text_of(ms.skip(i as int)),
        decreases i,
    {
        let j = i - 1;
        proof {
            assert(ms.skip(j as int).drop_first() =~= ms.skip(i as int));
            assert(ms.skip(j as int)[0] == messages@[j as int]@);
        }
        match &messages[j].kind {
            MessageKind::User { .. } => {
                let shown = match crate::message::visible_text(&messages[j]) {
                    Some(t) => t,
                    None => "",
                };
                proof {
                    reveal_strlit("");
                }
                let t = crate::text::trim_str(shown);
                if t.unicode_len() > 0 {
                    found = Some(t);
                }
            },
            _ => {},
        }
        i = j;
    }
    proof {
        assert(ms.skip(0) =~= ms);
    }
    found
}

fn latest_created(messages: &Vec<Message>) -> (t: i64)
    requires
        messages@.len() > 0,
    ensures
        t == max_created(views(messages@)),
{
    let ghost ms = views(messages@);
    let mut t = messages[0].created_at;
    let mut i: usize = 1;
    proof {
        assert(ms.take(1).len() == 1);
        assert(ms.take(1)[0] == ms[0]);
    }
    while i < messages.len()
        invariant
            ms == views(messages@),
            1 <= i <= messages@.len(),
            t == max_created(ms.take(i as int)),
        decreases messages.len() - i,
    {
        proof {
            assert(ms.take(i + 1).drop_last() =~= ms.take(i as int));
            assert(ms.take(i + 1).last() == messages@[i as int]@);
        }
        if messages[i].created_at > t {
            t = messages[i].created_at;
        }
        i = i + 1;
    }
    proof {
        assert(ms.take(messages@.len() as int) =~= ms);
    }
    t
}

fn head_of(t: Option<&str>) -> (r: Option<String>)
    ensures
        crate::message::opt_str(r) == head_opt(match t {
            Some(s) => Some(s@),
            None => None,
        }),
{
    match t {
        Some(s) => Some(crate::text::head_chars(s, DERIVE_CHARS)),
        None => None,
    }
}

/// Segment `idx` of a split session as a session of its own, under `key`:
/// message ids stay, links to parents outside the segment are cut.  A
/// boundary segment is never empty.
pub fn build_segment(
    idx: usize,
    messages: Vec<Message>,
    old_meta: &crate::session::SessionMeta,
    key: crate::session::SessionKey,
    now: i64,
) -> (r: (crate::session::SessionMeta, Vec<Message>))
    requires
        idx == 0 || messages@.len() > 0,
    ensures
        r.0@ == segment_meta(idx, views(messages@), old_meta@, key, now),
        views(r.1@) == views(messages@).map_values(|m: MessageView| relinked(views(messages@), m)),
{
    let ghost ms = views(messages@);
    let mut out: Vec<Message> = Vec::new();
    let mut i: usize = 0;
    while i < messages.len()
        invariant
            ms == views(messages@),
            i <= messages@.len(),
            views(out@) == ms.take(i as int).map_values(|m: MessageView| relinked(ms, m)),
        decreases messages.len() - i,
    {
        let mut m = messages[i].copy();
        let keep = match m.parent_id {
            Some(p) => holds_id(&messages, p),
            None => false,
        };
        if !keep {
            m.parent_id = None;
        }
        proof {
            assert(ms[i as int] == messages@[i as int]@);
            assert(m@ == relinked(ms, ms[i as int]));
        }
        let ghost before = views(out@);
        out.push(m);
        proof {
            assert(views(out@) =~= before.push(relinked(ms, ms[i as int])));
            assert(ms.take(i + 1).map_values(|m: MessageView| relinked(ms, m)) =~= ms.take(i as int).map_values(
                |m: MessageView| relinked(ms, m),
            ).push(relinked(ms, ms[i as int])));
        }
        i = i + 1;
    }
    proof {
        assert(ms.take(messages@.len() as int) =~= ms);
    }
    let ap = match old_meta.active_path {
        Some(a) => if holds_id(&messages, a) {
            Some(a)
        } else {
            None
        },
        None => None,
    };
    let status = if ap.is_some() {
        old_meta.status
    } else {
        crate::session::SessionStatus::Archived
    };
    let created = if messages.len() > 0 {
        messages[0].created_at
    } else {
        now
    };
    let last = if messages.len() > 0 {
        latest_created(&messages)
    } else {
        created
    };
    let goal = if idx == 0 {
        match &old_meta.goal {
            Some(g) => Some(g.copy()),
            None => None,
        }
    } else {
        match head_of(boundary_summary(&messages[0])) {
            Some(t) => Some(crate::session::Goal { text: t }),
            None => None,
        }
    };
    let title = if status == crate::session::SessionStatus::Archived {
        match first_user_text(&messages) {
            Some(t) => head_of(Some(t.as_str())),
            None => None,
        }
    } else {
        None
    };
    let archived_at = if ap.is_some() {
        if old_meta.status == crate::session::SessionStatus::Active {
            None
        } else {
            match old_meta.archived_at {
                Some(t) => Some(t),
                None => Some(now),
            }
        }
    } else {
        Some(now)
    };
    let meta = crate::session::SessionMeta {
        key,
        goal,
        title,
        status,
        created_at: created,
        archived_at,
        last_activity_at: last,
        active_path: ap,
    };
    (meta, out)
}

} // verus!
