//! Mistake notebook: the domain type, its filter and patch.
use vstd::prelude::*;

use crate::text::owned;

verus! {

/// Identity of a mistake (a UUID, as its 128-bit value).
#[derive(Debug, Clone, Copy, PartialEq, Eq, Hash, Structural)]
pub struct MistakeId(pub u128);

/// One archived mistake.  Times are milliseconds since the Unix epoch; a
/// removed mistake keeps its record with `deleted_at` set.
#[derive(Debug)]
pub struct Mistake {
    pub id: MistakeId,
    pub subject: String,
    pub knowledge_point: String,
    pub question: String,
    pub student_answer: String,
    pub reference_answer: Option<String>,
    pub is_correct: bool,
    pub analysis: String,
    pub created_at: i64,
    pub pinned: bool,
    pub deleted_at: Option<i64>,
}

pub struct MistakeView {
    pub id: MistakeId,
    pub subject: Seq<char>,
    pub knowledge_point: Seq<char>,
    pub question: Seq<char>,
    pub student_answer: Seq<char>,
    pub reference_answer: Option<Seq<char>>,
    pub is_correct: bool,
    pub analysis: Seq<char>,
    pub created_at: i64,
    pub pinned: bool,
    pub deleted_at: Option<i64>,
}

impl View for Mistake {
    type V = MistakeView;

    open spec fn view(&self) -> MistakeView {
        MistakeView {
            id: self.id,
            subject: self.subject@,
            knowledge_point: self.knowledge_point@,
            question: self.question@,
            student_answer: self.student_answer@,
            reference_answer: crate::message::opt_str(self.reference_answer),
            is_correct: self.is_correct,
            analysis: self.analysis@,
            created_at: self.created_at,
            pinned: self.pinned,
            deleted_at: self.deleted_at,
        }
    }
}

impl Mistake {
    pub fn copy(&self) -> (r: Mistake)
        ensures
            r@ == self@,
    {
        Mistake {
            id: self.id,
            subject: owned(self.subject.as_str()),
            knowledge_point: owned(self.knowledge_point.as_str()),
            question: owned(self.question.as_str()),
            student_answer: owned(self.student_answer.as_str()),
            reference_answer: crate::message::copy_opt_string(&self.reference_answer),
            is_correct: self.is_correct,
            analysis: owned(self.analysis.as_str()),
            created_at: self.created_at,
            pinned: self.pinned,
            deleted_at: self.deleted_at,
        }
    }
}

/// Filter of `list`: each given field must match exactly.
#[derive(Debug, Default)]
pub struct MistakeFilter {
    pub subject: Option<String>,
    pub knowledge_point: Option<String>,
    pub is_correct: Option<bool>,
}

/// Patch of `update`: each given field replaces the stored one.
#[derive(Debug, Default)]
pub struct MistakePatch {
    pub subject: Option<String>,
    pub knowledge_point: Option<String>,
    pub question: Option<String>,
    pub student_answer: Option<String>,
    pub reference_answer: Option<Option<String>>,
    pub analysis: Option<String>,
    pub is_correct: Option<bool>,
    pub pinned: Option<bool>,
}

pub struct MistakeFilterView {
    pub subject: Option<Seq<char>>,
    pub knowledge_point: Option<Seq<char>>,
    pub is_correct: Option<bool>,
}

impl View for MistakeFilter {
    type V = MistakeFilterView;

    open spec fn view(&self) -> MistakeFilterView {
        MistakeFilterView {
            subject: crate::message::opt_str(self.subject),
            knowledge_point: crate::message::opt_str(self.knowledge_point),
            is_correct: self.is_correct,
        }
    }
}

pub struct MistakePatchView {
    pub subject: Option<Seq<char>>,
    pub knowledge_point: Option<Seq<char>>,
    pub question: Option<Seq<char>>,
    pub student_answer: Option<Seq<char>>,
    pub reference_answer: Option<Option<Seq<char>>>,
    pub analysis: Option<Seq<char>>,
    pub is_correct: Option<bool>,
    pub pinned: Option<bool>,
}

impl View for MistakePatch {
    type V = MistakePatchView;

    open spec fn view(&self) -> MistakePatchView {
        MistakePatchView {
            subject: crate::message::opt_str(self.subject),
            knowledge_point: crate::message::opt_str(self.knowledge_point),
            question: crate::message::opt_str(self.question),
            student_answer: crate::message::opt_str(self.student_answer),
            reference_answer: match self.reference_answer {
                Some(r) => Some(crate::message::opt_str(r)),
                None => None,
            },
            analysis: crate::message::opt_str(self.analysis),
            is_correct: self.is_correct,
            pinned: self.pinned,
        }
    }
}

/// Whether a mistake is still in the notebook (not removed).
pub open spec fn live(m: MistakeView) -> bool {
    m.deleted_at is None
}

/// Whether a mistake passes a filter: each given field equal, and live.
pub open spec fn passes(f: MistakeFilterView, m: MistakeView) -> bool {
    &&& (f.subject matches Some(s) ==> m.subject == s)
    &&& (f.knowledge_point matches Some(k) ==> m.knowledge_point == k)
    &&& (f.is_correct matches Some(c) ==> m.is_correct == c)
    &&& live(m)
}

pub open spec fn or_keep<T>(new: Option<T>, old: T) -> T {
    match new {
        Some(v) => v,
        None => old,
    }
}

/// A mistake with a patch applied: each given field replaced.
pub open spec fn patched(m: MistakeView, p: MistakePatchView) -> MistakeView {
    MistakeView {
        subject: or_keep(p.subject, m.subject),
        knowledge_point: or_keep(p.knowledge_point, m.knowledge_point),
        question: or_keep(p.question, m.question),
        student_answer: or_keep(p.student_answer, m.student_answer),
        reference_answer: or_keep(p.reference_answer, m.reference_answer),
        analysis: or_keep(p.analysis, m.analysis),
        is_correct: or_keep(p.is_correct, m.is_correct),
        pinned: or_keep(p.pinned, m.pinned),
        ..m
    }
}

} // verus!
