//! The mistake-notebook tools of the grading plugin: reading a mistake id,
//! getting, updating and removing mistakes, archiving the wrong items of a
//! graded homework, and the salvage of a grading reply.
use vstd::prelude::*;

use crate::contract::{ToolError, ToolErrorCode};
use crate::mistake::{live, patched, Mistake, MistakeId, MistakePatch, MistakeView};
use crate::practice::{first_index_of, last_end_of, lemma_first_index_of, lemma_last_end_of, or_default};
use crate::storage::StorageError;
use crate::store::{
    deleted, has_mistake, live_index, live_lookup, mistake_at, removed_many, storage_error_text, uuid_text,
    MemoryStorage,
};
use crate::text::{concat2, owned, trim, trim_str};

verus! {

// ---------- mistake ids ----------

/// What `uuid::Uuid::parse_str` makes of a text: the value, or its error's
/// text.
pub uninterp spec fn uuid_parsed(s: Seq<char>) -> Result<u128, Seq<char>>;

/// `uuid::Uuid::parse_str`; named, it depends on the text alone.
#[verifier::external_body]
fn parse_uuid(s: &str) -> (r: Result<u128, String>)
    ensures
        match r {
            Ok(v) => uuid_parsed(s@) == Ok::<u128, Seq<char>>(v),
            Err(e) => uuid_parsed(s@) == Err::<u128, Seq<char>>(e@),
        },
{
    match uuid::Uuid::parse_str(s) {
        Ok(u) => Ok(u.as_u128()),
        Err(e) => Err(e.to_string()),
    }
}

/// A mistake id from its text; a malformed one is an invalid parameter.
pub fn parse_mistake_id(raw: &str) -> (r: Result<MistakeId, ToolError>)
    ensures
        match uuid_parsed(raw@) {
            Ok(v) => r == Ok::<MistakeId, ToolError>(MistakeId(v)),
            Err(m) => r matches Err(e) && e.code == ToolErrorCode::InvalidParams && e.message@ == "非法错题 id："@ + m,
        },
{
    match parse_uuid(raw) {
        Ok(v) => Ok(MistakeId(v)),
        Err(m) => {
            let text = concat2("非法错题 id：", m.as_str());
            Err(ToolError::invalid_params(text.as_str()))
        },
    }
}

pub open spec fn missing_mistake_message(raw: Seq<char>) -> Seq<char> {
    "错题不存在："@ + raw
}

fn storage_failure(e: &StorageError) -> (t: ToolError)
    ensures
        t.code == ToolErrorCode::HandlerError,
        t.message@ == storage_error_text(*e),
{
    let m = e.describe();
    ToolError::handler(m.as_str())
}

/// `grading::get`: the live mistake of that id.
pub fn get_mistake(store: &MemoryStorage, raw_id: &str) -> (r: Result<Mistake, ToolError>)
    requires
        store.wf(),
    ensures
        uuid_parsed(raw_id@) is Err ==> (r matches Err(e) && e.code == ToolErrorCode::InvalidParams),
        uuid_parsed(raw_id@) matches Ok(v) ==> match live_lookup(store.mistakes(), MistakeId(v)) {
            Some(m) => r matches Ok(x) && x@ == m,
            None => r matches Err(e) && e.code == ToolErrorCode::HandlerError && e.message@ == missing_mistake_message(
                raw_id@,
            ),
        },
{
    let id = match parse_mistake_id(raw_id) {
        Ok(id) => id,
        Err(e) => return Err(e),
    };
    match store.get(&id) {
        Some(m) => Ok(m),
        None => {
            let text = concat2("错题不存在：", raw_id);
            Err(ToolError::handler(text.as_str()))
        },
    }
}

/// `grading::update`: applies the patch and gives the mistake back.
pub fn update_mistake(store: &mut MemoryStorage, raw_id: &str, patch: &MistakePatch) -> (r: Result<Mistake, ToolError>)
    requires
        old(store).wf(),
    ensures
        final(store).wf(),
        final(store).sessions() == old(store).sessions(),
        uuid_parsed(raw_id@) is Err ==> (r matches Err(e) && e.code == ToolErrorCode::InvalidParams && final(store).mistakes()
            == old(store).mistakes()),
        uuid_parsed(raw_id@) matches Ok(v) ==> {
            let k = live_index(old(store).mistakes(), MistakeId(v));
            if k < 0 {
                &&& r matches Err(e) && e.code == ToolErrorCode::HandlerError && e.message@ == "错题不存在："@
                    + uuid_text(v)
                &&& final(store).mistakes() == old(store).mistakes()
            } else {
                &&& final(store).mistakes() == old(store).mistakes().update(
                    k,
                    patched(old(store).mistakes()[k], patch@),
                )
                &&& r matches Ok(x) && x@ == patched(old(store).mistakes()[k], patch@)
            }
        },
{
    let id = match parse_mistake_id(raw_id) {
        Ok(id) => id,
        Err(e) => return Err(e),
    };
    match store.update(&id, patch) {
        Ok(()) => {},
        Err(e) => return Err(storage_failure(&e)),
    }
    proof {
        let k = live_index(old(store).mistakes(), id);
        crate::store::lemma_updated_mistake_is_patched(old(store).mistakes(), id, patch@);
    }
    match store.get(&id) {
        Some(m) => Ok(m),
        None => {
            let text = concat2("错题不存在：", raw_id);
            Err(ToolError::handler(text.as_str()))
        },
    }
}

/// `grading::remove`: removes the mistake at time `now`; returns its id.
pub fn remove_mistake_at(store: &mut MemoryStorage, raw_id: &str, now: i64) -> (r: Result<MistakeId, ToolError>)
    requires
        old(store).wf(),
    ensures
        final(store).wf(),
        final(store).sessions() == old(store).sessions(),
        uuid_parsed(raw_id@) is Err ==> (r matches Err(e) && e.code == ToolErrorCode::InvalidParams && final(store).mistakes()
            == old(store).mistakes()),
        uuid_parsed(raw_id@) matches Ok(v) ==> if !has_mistake(old(store).mistakes(), MistakeId(v)) {
            &&& r matches Err(e) && e.code == ToolErrorCode::HandlerError && e.message@ == "错题不存在："@ + uuid_text(v)
            &&& final(store).mistakes() == old(store).mistakes()
        } else {
            &&& r == Ok::<MistakeId, ToolError>(MistakeId(v))
            &&& forall|i: int| #[trigger]
                mistake_at(old(store).mistakes(), MistakeId(v), i) ==> final(store).mistakes() == if live(
                    old(store).mistakes()[i],
                ) {
                    old(store).mistakes().update(i, deleted(old(store).mistakes()[i], now))
                } else {
                    old(store).mistakes()
                }
        },
{
    let id = match parse_mistake_id(raw_id) {
        Ok(id) => id,
        Err(e) => return Err(e),
    };
    match store.remove_at(&id, now) {
        Ok(()) => Ok(id),
        Err(e) => Err(storage_failure(&e)),
    }
}

/// The error text of a malformed id (empty for a well-formed one).
pub open spec fn parse_error(raw: Seq<char>) -> Seq<char> {
    match uuid_parsed(raw) {
        Err(m) => m,
        Ok(_) => Seq::empty(),
    }
}

/// Ids of a list of texts: all of them, or the error of the first
/// malformed one.
pub fn parse_mistake_ids(raw: &Vec<String>) -> (r: Result<Vec<MistakeId>, ToolError>)
    ensures
        (forall|i: int| 0 <= i < raw@.len() ==> #[trigger] uuid_parsed(raw@[i]@) is Ok) ==> (r matches Ok(ids) && ids@.len()
            == raw@.len() && forall|i: int|
            0 <= i < raw@.len() ==> uuid_parsed(raw@[i]@) == Ok::<u128, Seq<char>>(#[trigger] ids@[i].0)),
        !(forall|i: int| 0 <= i < raw@.len() ==> #[trigger] uuid_parsed(raw@[i]@) is Ok) ==> (r matches Err(e) && e.code
            == ToolErrorCode::InvalidParams),
        forall|j: int|
            0 <= j < raw@.len() && (forall|k: int| 0 <= k < j ==> #[trigger] uuid_parsed(raw@[k]@) is Ok) && (
            #[trigger] uuid_parsed(raw@[j]@)) is Err ==> (r matches Err(e) && e.message@ == "非法错题 id："@ + parse_error(
                raw@[j]@,
            )),
{
    let mut ids: Vec<MistakeId> = Vec::new();
    let mut i: usize = 0;
    while i < raw.len()
        invariant
            i <= raw@.len(),
            ids@.len() == i,
            forall|j: int| 0 <= j < i ==> uuid_parsed(raw@[j]@) == Ok::<u128, Seq<char>>(#[trigger] ids@[j].0),
        decreases raw.len() - i,
    {
        match parse_mistake_id(raw[i].as_str()) {
            Ok(id) => ids.push(id),
            Err(e) => {
                proof {
                    assert forall|j: int|
                        0 <= j < raw@.len() && (forall|k: int| 0 <= k < j ==> #[trigger] uuid_parsed(raw@[k]@) is Ok)
                            && (#[trigger] uuid_parsed(raw@[j]@)) is Err implies e.message@ == "非法错题 id："@ + parse_error(
                        raw@[j]@,
                    ) by {
                        if j < i {
                            assert(uuid_parsed(raw@[j]@) == Ok::<u128, Seq<char>>(ids@[j].0));
                        } else if j > i {
                            assert(uuid_parsed(raw@[i as int]@) is Ok);
                        }
                    }
                }
                return Err(e);
            },
        }
        i = i + 1;
    }
    proof {
        assert forall|j: int| 0 <= j < raw@.len() implies #[trigger] uuid_parsed(raw@[j]@) is Ok by {
            assert(uuid_parsed(raw@[j]@) == Ok::<u128, Seq<char>>(ids@[j].0));
        }
    }
    Ok(ids)
}

/// The ids a list of texts names (each text read as a UUID; a malformed
/// one counts as 0, and is never used: the list is then refused).
pub open spec fn parsed_ids(raw: Seq<String>) -> Seq<MistakeId> {
    Seq::new(
        raw.len(),
        |i: int|
            MistakeId(
                match uuid_parsed(raw[i]@) {
                    Ok(v) => v,
                    Err(_) => 0,
                },
            ),
    )
}

/// `grading::remove_many` at time `now`: with every id well formed, each is
/// removed in turn and the result is how many were live when their turn
/// came; a malformed id refuses the whole list (with the error of the first
/// one) and removes nothing.
pub fn remove_mistakes_at(store: &mut MemoryStorage, raw: &Vec<String>, now: i64) -> (r: Result<usize, ToolError>)
    requires
        old(store).wf(),
    ensures
        final(store).wf(),
        final(store).sessions() == old(store).sessions(),
        r is Err ==> final(store).mistakes() == old(store).mistakes(),
        r matches Ok(n) ==> exists|ids: Seq<MistakeId>|
            ids.len() == raw@.len() && (forall|i: int| 0 <= i < raw@.len() ==> uuid_parsed(raw@[i]@) == Ok::<u128, Seq<char>>(#[trigger] ids[i].0))
            && (final(store).mistakes(), n as nat) == removed_many(old(store).mistakes(), ids, now),
        (forall|i: int| 0 <= i < raw@.len() ==> #[trigger] uuid_parsed(raw@[i]@) is Ok) ==> (r matches Ok(n) && (
        final(store).mistakes(), n as nat) == removed_many(old(store).mistakes(), parsed_ids(raw@), now)),
        !(forall|i: int| 0 <= i < raw@.len() ==> #[trigger] uuid_parsed(raw@[i]@) is Ok) ==> (r matches Err(e) && e.code
            == ToolErrorCode::InvalidParams),
        forall|j: int|
            0 <= j < raw@.len() && (forall|k: int| 0 <= k < j ==> #[trigger] uuid_parsed(raw@[k]@) is Ok) && (
            #[trigger] uuid_parsed(raw@[j]@)) is Err ==> (r matches Err(e) && e.message@ == "非法错题 id："@ + parse_error(
                raw@[j]@,
            )),
{
    let ids = match parse_mistake_ids(raw) {
        Ok(ids) => ids,
        Err(e) => return Err(e),
    };
    proof {
        assert(ids@ =~= parsed_ids(raw@)) by {
            assert forall|i: int| 0 <= i < ids@.len() implies ids@[i] == parsed_ids(raw@)[i] by {
                assert(uuid_parsed(raw@[i]@) == Ok::<u128, Seq<char>>(ids@[i].0));
            }
        }
    }
    let n = store.remove_many_at(ids.as_slice(), now);
    Ok(n)
}

// ---------- graded homework ----------

/// One graded item of a homework.
#[derive(Debug)]
pub struct GradedItem {
    pub question: String,
    pub student_answer: Option<String>,
    pub reference_answer: Option<String>,
    pub correct: bool,
    pub analysis: Option<String>,
    pub subject: Option<String>,
    pub knowledge_point: Option<String>,
}

/// The mistake archived for a wrong item: subject "未分类" when blank,
/// knowledge point "未标注" and answer "（未作答）" when absent, a reference
/// answer only when not blank.
pub open spec fn graded_mistake(item: GradedItem, id: MistakeId, now: i64) -> MistakeView {
    MistakeView {
        id,
        subject: or_default(crate::message::opt_str(item.subject), "未分类"@),
        knowledge_point: match item.knowledge_point {
            Some(k) => k@,
            None => "未标注"@,
        },
        question: item.question@,
        student_answer: match item.student_answer {
            Some(a) => a@,
            None => "（未作答）"@,
        },
        reference_answer: match item.reference_answer {
            Some(r) => if trim(r@).len() > 0 {
                Some(r@)
            } else {
                None
            },
            None => None,
        },
        is_correct: false,
        analysis: match item.analysis {
            Some(a) => a@,
            None => Seq::empty(),
        },
        created_at: now,
        pinned: false,
        deleted_at: None,
    }
}

fn mistake_of(item: &GradedItem, id: MistakeId, now: i64) -> (m: Mistake)
    ensures
        m@ == graded_mistake(*item, id, now),
        archived_as(m@, *item, id, now),
{
    proof {
        lemma_graded_mistake_fields(*item, id, now);
    }
    Mistake {
        id,
        subject: match &item.subject {
            Some(s) => if trim_str(s.as_str()).unicode_len() > 0 {
                owned(s.as_str())
            } else {
                owned("未分类")
            },
            None => owned("未分类"),
        },
        knowledge_point: match &item.knowledge_point {
            Some(k) => owned(k.as_str()),
            None => owned("未标注"),
        },
        question: owned(item.question.as_str()),
        student_answer: match &item.student_answer {
            Some(a) => owned(a.as_str()),
            None => owned("（未作答）"),
        },
        reference_answer: match &item.reference_answer {
            Some(r) => if trim_str(r.as_str()).unicode_len() > 0 {
                Some(owned(r.as_str()))
            } else {
                None
            },
            None => None,
        },
        is_correct: false,
        analysis: match &item.analysis {
            Some(a) => owned(a.as_str()),
            None => String::new(),
        },
        created_at: now,
        pinned: false,
        deleted_at: None,
    }
}

/// Counts of a graded homework.
#[derive(Debug)]
pub struct GradeSummary {
    pub total: usize,
    pub correct_count: usize,
    pub wrong_count: usize,
    pub archived: usize,
}

pub open spec fn wrong_count_of(items: Seq<GradedItem>) -> nat
    decreases items.len(),
{
    if items.len() == 0 {
        0
    } else {
        wrong_count_of(items.drop_last()) + if items.last().correct {
            0nat
        } else {
            1nat
        }
    }
}

/// The notebook after archiving the wrong items in order, item `i` under
/// id `ids[i]`.
pub open spec fn archived_graded(book: Seq<MistakeView>, items: Seq<GradedItem>, ids: Seq<MistakeId>, now: i64) -> Seq<MistakeView>
    decreases items.len(),
{
    if items.len() == 0 {
        book
    } else {
        let b = archived_graded(book, items.drop_last(), ids, now);
        if items.last().correct {
            b
        } else {
            b.push(graded_mistake(items.last(), ids[items.len() - 1], now))
        }
    }
}

/// What a wrong graded item leaves in the notebook: its id, its question
/// and the student's answer as given ("（未作答）" when none was given), its
/// knowledge point and analysis when given, marked wrong, saved at `now`.
pub open spec fn archived_as(m: MistakeView, item: GradedItem, id: MistakeId, now: i64) -> bool {
    &&& m.id == id
    &&& m.question == item.question@
    &&& (item.student_answer matches Some(a) ==> m.student_answer == a@)
    &&& (item.student_answer is None ==> m.student_answer == "（未作答）"@)
    &&& (item.knowledge_point matches Some(k) ==> m.knowledge_point == k@)
    &&& (item.analysis matches Some(a) ==> m.analysis == a@)
    &&& !m.is_correct
    &&& m.created_at == now
    &&& m.deleted_at is None
}

proof fn lemma_archived_shape(book: Seq<MistakeView>, items: Seq<GradedItem>, ids: Seq<MistakeId>, now: i64)
    ensures
        archived_graded(book, items, ids, now).len() == book.len() + wrong_count_of(items),
        archived_graded(book, items, ids, now).subrange(0, book.len() as int) == book,
    decreases items.len(),
{
    if items.len() == 0 {
        assert(book.subrange(0, book.len() as int) =~= book);
    } else {
        let b = archived_graded(book, items.drop_last(), ids, now);
        lemma_archived_shape(book, items.drop_last(), ids, now);
        if !items.last().correct {
            let r = b.push(graded_mistake(items.last(), ids[items.len() - 1], now));
            assert(r.subrange(0, book.len() as int) =~= b.subrange(0, book.len() as int));
        }
    }
}

proof fn lemma_graded_mistake_fields(item: GradedItem, id: MistakeId, now: i64)
    ensures
        archived_as(graded_mistake(item, id, now), item, id, now),
{
    reveal_strlit("（未作答）");
}

proof fn lemma_archived_covers(book: Seq<MistakeView>, items: Seq<GradedItem>, ids: Seq<MistakeId>, now: i64, i: int)
    requires
        ids.len() >= items.len(),
        0 <= i < items.len(),
        !items[i].correct,
    ensures
        exists|j: int|
            book.len() <= j < archived_graded(book, items, ids, now).len() && archived_as(
                #[trigger] archived_graded(book, items, ids, now)[j],
                items[i],
                ids[i],
                now,
            ),
    decreases items.len(),
{
    let n = items.len() - 1;
    let pre = items.drop_last();
    let b = archived_graded(book, pre, ids, now);
    let r = archived_graded(book, items, ids, now);
    lemma_archived_shape(book, pre, ids, now);
    if i < n {
        lemma_archived_covers(book, pre, ids, now, i);
        assert(pre[i] == items[i]);
        let j = choose|j: int| book.len() <= j < b.len() && archived_as(#[trigger] b[j], pre[i], ids[i], now);
        if items.last().correct {
            assert(r[j] == b[j]);
        } else {
            assert(r == b.push(graded_mistake(items.last(), ids[n], now)));
            assert(r[j] == b[j]);
        }
    } else {
        lemma_graded_mistake_fields(items[n], ids[n], now);
        assert(r == b.push(graded_mistake(items.last(), ids[n], now)));
        assert(r[b.len() as int] == graded_mistake(items[n], ids[n], now));
    }
}

proof fn lemma_archived_only(book: Seq<MistakeView>, items: Seq<GradedItem>, ids: Seq<MistakeId>, now: i64, j: int)
    requires
        ids.len() >= items.len(),
        book.len() <= j < archived_graded(book, items, ids, now).len(),
    ensures
        exists|i: int|
            0 <= i < items.len() && !items[i].correct && archived_as(
                archived_graded(book, items, ids, now)[j],
                #[trigger] items[i],
                ids[i],
                now,
            ),
    decreases items.len(),
{
    let n = items.len() - 1;
    let pre = items.drop_last();
    let b = archived_graded(book, pre, ids, now);
    let r = archived_graded(book, items, ids, now);
    lemma_archived_shape(book, pre, ids, now);
    if items.last().correct {
        lemma_archived_only(book, pre, ids, now, j);
        let i = choose|i: int| 0 <= i < pre.len() && !pre[i].correct && archived_as(b[j], #[trigger] pre[i], ids[i], now);
        assert(items[i] == pre[i]);
    } else {
        assert(r == b.push(graded_mistake(items.last(), ids[n], now)));
        if j < b.len() {
            lemma_archived_only(book, pre, ids, now, j);
            let i = choose|i: int| 0 <= i < pre.len() && !pre[i].correct && archived_as(b[j], #[trigger] pre[i], ids[i], now);
            assert(items[i] == pre[i]);
            assert(r[j] == b[j]);
        } else {
            lemma_graded_mistake_fields(items[n], ids[n], now);
            assert(r[j] == graded_mistake(items[n], ids[n], now));
        }
    }
}

/// Archiving a graded homework keeps the notebook and adds one mistake per
/// wrong item, no other: each wrong item is found among the added mistakes
/// with its id, question and the student's own answer, and each added
/// mistake is such a record of a wrong item.
pub proof fn lemma_archived_graded_items(book: Seq<MistakeView>, items: Seq<GradedItem>, ids: Seq<MistakeId>, now: i64)
    requires
        ids.len() >= items.len(),
    ensures
        archived_graded(book, items, ids, now).len() == book.len() + wrong_count_of(items),
        archived_graded(book, items, ids, now).subrange(0, book.len() as int) == book,
        forall|i: int|
            0 <= i < items.len() && !(#[trigger] items[i]).correct ==> exists|j: int|
                book.len() <= j < archived_graded(book, items, ids, now).len() && archived_as(
                    #[trigger] archived_graded(book, items, ids, now)[j],
                    items[i],
                    ids[i],
                    now,
                ),
        forall|j: int|
            book.len() <= j < archived_graded(book, items, ids, now).len() ==> exists|i: int|
                0 <= i < items.len() && !items[i].correct && archived_as(
                    #[trigger] archived_graded(book, items, ids, now)[j],
                    #[trigger] items[i],
                    ids[i],
                    now,
                ),
{
    lemma_archived_shape(book, items, ids, now);
    assert forall|i: int| 0 <= i < items.len() && !(#[trigger] items[i]).correct implies exists|j: int|
        book.len() <= j < archived_graded(book, items, ids, now).len() && archived_as(
            #[trigger] archived_graded(book, items, ids, now)[j],
            items[i],
            ids[i],
            now,
        ) by {
        lemma_archived_covers(book, items, ids, now, i);
    }
    assert forall|j: int| book.len() <= j < archived_graded(book, items, ids, now).len() implies exists|i: int|
        0 <= i < items.len() && !items[i].correct && archived_as(
            #[trigger] archived_graded(book, items, ids, now)[j],
            #[trigger] items[i],
            ids[i],
            now,
        ) by {
        lemma_archived_only(book, items, ids, now, j);
    }
}

proof fn lemma_wrong_count_bound(items: Seq<GradedItem>)
    ensures
        wrong_count_of(items) <= items.len(),
    decreases items.len(),
{
    if items.len() > 0 {
        lemma_wrong_count_bound(items.drop_last());
    }
}

/// Archives the wrong items of a graded homework (item `i` as mistake
/// `ids[i]`, at `now`).  The first failed save stops and is a handler
/// error; the items archived before it stay.
pub fn archive_graded_at(store: &mut MemoryStorage, items: &Vec<GradedItem>, ids: &Vec<MistakeId>, now: i64) -> (r: Result<
    GradeSummary,
    ToolError,
>)
    requires
        old(store).wf(),
        ids@.len() == items@.len(),
    ensures
        final(store).wf(),
        final(store).sessions() == old(store).sessions(),
        (forall|i: int| 0 <= i < items@.len() && !items@[i].correct ==> !has_mistake(
            archived_graded(old(store).mistakes(), items@.take(i), ids@, now),
            #[trigger] ids@[i],
        )) ==> {
            &&& r matches Ok(s)
            &&& s.total == items@.len()
            &&& s.wrong_count == wrong_count_of(items@)
            &&& s.correct_count == items@.len() - wrong_count_of(items@)
            &&& s.archived == wrong_count_of(items@)
            &&& final(store).mistakes() == archived_graded(old(store).mistakes(), items@, ids@, now)
        },
        r is Err ==> exists|i: int|
            0 <= i < items@.len() && !items@[i].correct && has_mistake(
                archived_graded(old(store).mistakes(), items@.take(i), ids@, now),
                #[trigger] ids@[i],
            ),
{
    let mut wrong: usize = 0;
    let mut i: usize = 0;
    proof {
        assert(items@.take(0) =~= Seq::<GradedItem>::empty());
    }
    while i < items.len()
        invariant
            ids@.len() == items@.len(),
            i <= items@.len(),
            store.wf(),
            store.sessions() == old(store).sessions(),
            wrong == wrong_count_of(items@.take(i as int)),
            wrong <= i,
            store.mistakes() == archived_graded(old(store).mistakes(), items@.take(i as int), ids@, now),
        decreases items.len() - i,
    {
        let ghost pre = items@.take(i as int);
        proof {
            assert(items@.take(i + 1).drop_last() =~= pre);
            assert(items@.take(i + 1).last() == items@[i as int]);
            assert(items@.take(i + 1).len() - 1 == i);
        }
        if !items[i].correct {
            let m = mistake_of(&items[i], ids[i], now);
            match store.save(&m) {
                Ok(_) => {},
                Err(e) => {
                    let text = concat2("错题归档失败：", e.describe().as_str());
                    proof {
                        assert(has_mistake(archived_graded(old(store).mistakes(), items@.take(i as int), ids@, now), ids@[i as int]));
                    }
                    return Err(ToolError::handler(text.as_str()));
                },
            }
            wrong = wrong + 1;
        }
        i = i + 1;
    }
    proof {
        assert(items@.take(items@.len() as int) =~= items@);
        lemma_wrong_count_bound(items@);
    }
    Ok(GradeSummary { total: items.len(), correct_count: items.len() - wrong, wrong_count: wrong, archived: wrong })
}

// ---------- reading a grading reply ----------

/// The part of a text from its first `open` to its last `close`, when both
/// are there in that order.
pub open spec fn span_between(t: Seq<char>, open: char, close: char) -> Option<Seq<char>> {
    let s = first_index_of(t, open);
    let e = last_end_of(t, close);
    if s < t.len() && e > 0 && s < e {
        Some(t.subrange(s, e))
    } else {
        None
    }
}

fn span(t: &str, open: char, close: char) -> (r: Option<String>)
    ensures
        crate::message::opt_str(r) == span_between(t@, open, close),
{
    let n = t.unicode_len();
    proof {
        lemma_first_index_of(t@, open);
        lemma_last_end_of(t@, close);
    }
    let mut s: usize = 0;
    while s < n && t.get_char(s) != open
        invariant
            n == t@.len(),
            s <= n,
            s <= first_index_of(t@, open),
            0 <= first_index_of(t@, open) <= t@.len(),
            forall|j: int| 0 <= j < first_index_of(t@, open) ==> t@[j] != open,
            first_index_of(t@, open) < t@.len() ==> t@[first_index_of(t@, open)] == open,
        decreases n - s,
    {
        s = s + 1;
    }
    let mut e: usize = n;
    while e > 0 && t.get_char(e - 1) != close
        invariant
            n == t@.len(),
            e <= n,
            e >= last_end_of(t@, close),
            0 <= last_end_of(t@, close) <= t@.len(),
            forall|j: int| last_end_of(t@, close) <= j < t@.len() ==> t@[j] != close,
            last_end_of(t@, close) > 0 ==> t@[last_end_of(t@, close) - 1] == close,
        decreases e,
    {
        e = e - 1;
    }
    if s < n && e > 0 && s < e {
        Some(owned(t.substring_char(s, e)))
    } else {
        None
    }
}

/// The texts a grading reply is read from, in order: the trimmed reply (as
/// an array, then as one object), the part from its first '[' to its last
/// ']' (an array), the part from its first '{' to its last '}' (one object).
pub fn grading_candidates(text: &str) -> (r: (String, Option<String>, Option<String>))
    ensures
        r.0@ == trim(text@),
        crate::message::opt_str(r.1) == span_between(trim(text@), '[', ']'),
        crate::message::opt_str(r.2) == span_between(trim(text@), '{', '}'),
{
    let t = trim_str(text);
    let a = span(t.as_str(), '[', ']');
    let o = span(t.as_str(), '{', '}');
    (t, a, o)
}

} // verus!
