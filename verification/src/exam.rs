//! The exam: the one owned, mutable entry collection, together with its
//! configured grade ceiling and an optional title.
//!
//! Invariant (`wf`): the stored entries always carry valid rank and
//! percentile annotations for the *current* membership. Every operation
//! that changes membership re-runs the ranking engine before returning, so
//! rank and percentile are never stale when observed; sorting only permutes
//! entries and cannot invalidate them. Aggregate statistics and histograms
//! are computed on read, never cached.

use vstd::prelude::*;
use vstd::relations::sorted_by;

use crate::filter::matches_any;
use crate::filter::name_in;
use crate::filter::name_in_set;
use crate::filter::student_matches;
use crate::histogram::Histogram;
use crate::histogram::bucket_count_of;
use crate::histogram::bucket_tally;
use crate::histogram::has_overflow;
use crate::histogram::histogram_of;
use crate::laws::sort_by_grade_spec;
use crate::rank::annotate;
use crate::rank::annotated;
use crate::rank::grades_vec;
use crate::rank::lemma_annotated_permutation;
use crate::sorting::grade_order;
use crate::sorting::name_order;
use crate::sorting::sort_spec;
use crate::sorting::sort_students_by_grade;
use crate::sorting::sort_students_by_name;
use crate::sorting::lemma_grade_order_props;
use crate::sorting::lemma_name_order_props;
use crate::sorting::lemma_sort_spec_multiset;
use crate::sorting::lemma_sort_spec_sorted;
use crate::stats::ExamStatistics;
use crate::stats::stats_core;
use crate::stats::stats_match;
use crate::student::Student;
use crate::student::grades_of;
use crate::student::same_core;

verus! {

broadcast use
    vstd::prelude::Seq::lemma_filter_push,
    vstd::prelude::Seq::lemma_filter_len,
    vstd::seq_lib::group_to_multiset_ensures,
;

/// The grade ceiling an exam starts with, in raw grade units.
pub const DEFAULT_MAX_GRADE: u32 = 10;

/// An exam: named grades with derived annotations, a grade ceiling and an
/// optional title.
pub struct Exam {
    title: Option<String>,
    max_grade: u32,
    students: Vec<Student>,
}

/// Keep an entry when its name matches any of the queries.
pub open spec fn keep_by_name(queries: Seq<String>) -> spec_fn(Student) -> bool {
    |s: Student| matches_any(queries, s.name@)
}

/// Keep an entry when its name occurs, exactly and case-insensitively, in
/// every one of the given exams.
pub open spec fn keep_in_all(others: Seq<Exam>) -> spec_fn(Student) -> bool {
    |s: Student|
        forall|k: int|
            0 <= k < others.len() ==> name_in((#[trigger] others[k]).students_view(), s.name@)
}

/// The bucket width a histogram request denotes: the given step, or one
/// grade unit by default.
pub open spec fn step_of(step: Option<u32>) -> u32 {
    match step {
        Some(s) => s,
        None => 1,
    }
}

impl Exam {
    /// The stored entry sequence.
    pub closed spec fn students_view(self) -> Seq<Student> {
        self.students@
    }

    /// The configured grade ceiling.
    pub closed spec fn max_grade_view(self) -> u32 {
        self.max_grade
    }

    /// The exam title, if one was set.
    pub closed spec fn title_view(self) -> Option<String> {
        self.title
    }

    /// Well-formedness: the entry count is machine-bounded and every entry
    /// carries the rank and percentile its current entry set determines.
    pub closed spec fn wf(self) -> bool {
        &&& self.students@.len() <= u32::MAX
        &&& annotated(self.students@)
    }

    /// What well-formedness guarantees about the entries: every stored
    /// annotation is the one the current entry set determines.
    pub proof fn lemma_wf_entries(self)
        requires
            self.wf(),
        ensures
            annotated(self.students_view()),
            self.students_view().len() <= u32::MAX,
    {
    }

    /// Builds an exam over the given entries, annotating every entry, with
    /// the default grade ceiling and no title.
    pub fn new(students: Vec<Student>) -> (e: Exam)
        requires
            students@.len() <= u32::MAX,
        ensures
            e.wf(),
            same_core(e.students_view(), students@),
            e.max_grade_view() == DEFAULT_MAX_GRADE,
            e.title_view() is None,
    {
        let annotated_students = annotate(students);
        Exam { title: None, max_grade: DEFAULT_MAX_GRADE, students: annotated_students }
    }

    /// Sets the maximum achievable grade. Ranks and percentiles do not
    /// depend on the ceiling, so the entries are untouched; statistics are
    /// recomputed on every read anyway.
    pub fn set_max_grade(&mut self, max_grade: u32)
        requires
            old(self).wf(),
        ensures
            final(self).wf(),
            final(self).students_view() == old(self).students_view(),
            final(self).max_grade_view() == max_grade,
            final(self).title_view() == old(self).title_view(),
    {
        self.max_grade = max_grade;
    }

    /// Sets the title of the exam.
    pub fn set_title(&mut self, title: String)
        requires
            old(self).wf(),
        ensures
            final(self).wf(),
            final(self).students_view() == old(self).students_view(),
            final(self).max_grade_view() == old(self).max_grade_view(),
            final(self).title_view() == Some(title),
    {
        self.title = Some(title);
    }

    /// Sorts the entries by grade, descending; entries with equal grades
    /// order by folded name, ascending. Implemented as a stable name sort
    /// followed by a stable grade sort, whose stability preserves the name
    /// order among equal grades.
    pub fn sort_by_grade(&mut self)
        requires
            old(self).wf(),
        ensures
            final(self).wf(),
            final(self).students_view() == sort_by_grade_spec(old(self).students_view()),
            final(self).students_view().to_multiset() == old(
                self,
            ).students_view().to_multiset(),
            final(self).students_view().len() == old(self).students_view().len(),
            sorted_by(final(self).students_view(), grade_order()),
            final(self).max_grade_view() == old(self).max_grade_view(),
            final(self).title_view() == old(self).title_view(),
    {
        let ghost orig = self.students@;
        sort_students_by_name(&mut self.students);
        sort_students_by_grade(&mut self.students);
        proof {
            lemma_grade_order_props();
            lemma_sort_spec_sorted(grade_order(), sort_spec(name_order(), orig));
            lemma_sort_spec_multiset(name_order(), orig);
            lemma_sort_spec_multiset(grade_order(), sort_spec(name_order(), orig));
            lemma_annotated_permutation(orig, self.students@);
        }
    }

    /// Sorts the entries alphabetically by folded (case-insensitive,
    /// accent-insensitive) name, ascending, stably.
    pub fn sort_by_alphabetic_order(&mut self)
        requires
            old(self).wf(),
        ensures
            final(self).wf(),
            final(self).students_view() == sort_spec(name_order(), old(self).students_view()),
            final(self).students_view().to_multiset() == old(
                self,
            ).students_view().to_multiset(),
            final(self).students_view().len() == old(self).students_view().len(),
            sorted_by(final(self).students_view(), name_order()),
            final(self).max_grade_view() == old(self).max_grade_view(),
            final(self).title_view() == old(self).title_view(),
    {
        let ghost orig = self.students@;
        sort_students_by_name(&mut self.students);
        proof {
            lemma_name_order_props();
            lemma_sort_spec_sorted(name_order(), orig);
            lemma_sort_spec_multiset(name_order(), orig);
            lemma_annotated_permutation(orig, self.students@);
        }
    }

    /// Keeps only the entries whose name contains any of the queries,
    /// case-insensitively, then re-runs the ranking engine: percentiles are
    /// functions of the surviving entry set.
    pub fn filter_by_name(&mut self, queries: &Vec<String>)
        requires
            old(self).wf(),
        ensures
            final(self).wf(),
            same_core(
                final(self).students_view(),
                old(self).students_view().filter(keep_by_name(queries@)),
            ),
            final(self).max_grade_view() == old(self).max_grade_view(),
            final(self).title_view() == old(self).title_view(),
    {
        let mut taken: Vec<Student> = Vec::new();
        core::mem::swap(&mut self.students, &mut taken);
        let kept = retain_matching(taken, queries);
        let mut fresh = annotate(kept);
        core::mem::swap(&mut self.students, &mut fresh);
    }

    /// Keeps only the entries whose name occurs, exactly and
    /// case-insensitively, in *every* one of the given exams, then re-runs
    /// the ranking engine.
    pub fn filter_by_exams(&mut self, others: &Vec<Exam>)
        requires
            old(self).wf(),
        ensures
            final(self).wf(),
            same_core(
                final(self).students_view(),
                old(self).students_view().filter(keep_in_all(others@)),
            ),
            final(self).max_grade_view() == old(self).max_grade_view(),
            final(self).title_view() == old(self).title_view(),
    {
        let mut taken: Vec<Student> = Vec::new();
        core::mem::swap(&mut self.students, &mut taken);
        let kept = retain_in_all(taken, others);
        let mut fresh = annotate(kept);
        core::mem::swap(&mut self.students, &mut fresh);
    }

    /// The annotated entries, in their current order.
    pub fn students(&self) -> (r: &Vec<Student>)
        ensures
            r@ == self.students_view(),
    {
        &self.students
    }

    /// The exam title, if one was set.
    pub fn title(&self) -> (r: &Option<String>)
        ensures
            *r == self.title_view(),
    {
        &self.title
    }

    /// The configured maximum achievable grade.
    pub fn max_grade(&self) -> (r: u32)
        ensures
            r == self.max_grade_view(),
    {
        self.max_grade
    }

    /// Computes the aggregate statistics of the current snapshot against
    /// the configured ceiling. A fresh record every call: nothing is
    /// cached.
    pub fn summary(&self) -> (s: ExamStatistics)
        requires
            self.wf(),
        ensures
            stats_match(s, grades_of(self.students_view()), self.max_grade_view()),
    {
        stats_core(&self.students, self.max_grade)
    }

    /// Buckets the current grades into a histogram over `[0, max_grade]`
    /// with the given bucket width (one grade unit when absent).
    pub fn histogram(&self, step: Option<u32>) -> (h: Histogram)
        requires
            self.wf(),
            step matches Some(s) ==> s >= 1,
        ensures
            h.buckets@.len() == bucket_count_of(self.max_grade_view(), step_of(step)),
            forall|b: int|
                0 <= b < h.buckets@.len() ==> #[trigger] h.buckets@[b] == bucket_tally(
                    grades_of(self.students_view()),
                    self.max_grade_view(),
                    step_of(step),
                    b,
                ),
            h.overflow == has_overflow(grades_of(self.students_view()), self.max_grade_view()),
    {
        let width: u32 = match step {
            Some(s) => s,
            None => 1,
        };
        let grades = grades_vec(&self.students);
        histogram_of(&grades, self.max_grade, width)
    }
}

/// Keeps the entries matching any query, in order.
fn retain_matching(students: Vec<Student>, queries: &Vec<String>) -> (out: Vec<Student>)
    ensures
        out@ == students@.filter(keep_by_name(queries@)),
        out@.len() <= students@.len(),
{
    let ghost orig = students@;
    let ghost pred = keep_by_name(queries@);
    let mut v = students;
    let n0 = v.len();
    let mut out: Vec<Student> = Vec::new();
    let mut i: usize = 0;
    proof {
        assert(v@ =~= orig.skip(0));
        assert(orig.take(0) =~= Seq::<Student>::empty());
        assert(Seq::<Student>::empty().filter(pred) =~= Seq::<Student>::empty());
    }
    while v.len() > 0
        invariant
            pred == keep_by_name(queries@),
            n0 == orig.len(),
            i + v@.len() == orig.len(),
            v@ == orig.skip(i as int),
            out@ == orig.take(i as int).filter(pred),
            out@.len() <= i,
        decreases v@.len(),
    {
        let s = v.remove(0);
        proof {
            assert(orig.skip(i as int)[0] == orig[i as int]);
            assert(orig.skip(i as int).remove(0) =~= orig.skip(i as int + 1));
            assert(orig.take(i as int + 1) =~= orig.take(i as int).push(orig[i as int]));
        }
        let keep = student_matches(queries, &s);
        proof {
            assert(keep == pred(s));
        }
        if keep {
            out.push(s);
        }
        i += 1;
    }
    proof {
        assert(orig.take(orig.len() as int) =~= orig);
    }
    out
}

/// Whether a name occurs in every one of the given exams.
fn in_all(others: &Vec<Exam>, name: &str) -> (r: bool)
    ensures
        r == forall|k: int|
            0 <= k < others@.len() ==> name_in((#[trigger] others@[k]).students_view(), name@),
{
    let n = others.len();
    let mut k: usize = 0;
    while k < n
        invariant
            n == others@.len(),
            k <= n,
            forall|t: int|
                0 <= t < k ==> name_in((#[trigger] others@[t]).students_view(), name@),
        decreases n - k,
    {
        let other = &others[k];
        if !name_in_set(&other.students, name) {
            return false;
        }
        k += 1;
    }
    true
}

/// Keeps the entries present in every given exam, in order.
fn retain_in_all(students: Vec<Student>, others: &Vec<Exam>) -> (out: Vec<Student>)
    ensures
        out@ == students@.filter(keep_in_all(others@)),
        out@.len() <= students@.len(),
{
    let ghost orig = students@;
    let ghost pred = keep_in_all(others@);
    let mut v = students;
    let n0 = v.len();
    let mut out: Vec<Student> = Vec::new();
    let mut i: usize = 0;
    proof {
        assert(v@ =~= orig.skip(0));
        assert(orig.take(0) =~= Seq::<Student>::empty());
        assert(Seq::<Student>::empty().filter(pred) =~= Seq::<Student>::empty());
    }
    while v.len() > 0
        invariant
            pred == keep_in_all(others@),
            n0 == orig.len(),
            i + v@.len() == orig.len(),
            v@ == orig.skip(i as int),
            out@ == orig.take(i as int).filter(pred),
            out@.len() <= i,
        decreases v@.len(),
    {
        let s = v.remove(0);
        proof {
            assert(orig.skip(i as int)[0] == orig[i as int]);
            assert(orig.skip(i as int).remove(0) =~= orig.skip(i as int + 1));
            assert(orig.take(i as int + 1) =~= orig.take(i as int).push(orig[i as int]));
        }
        let keep = in_all(others, s.name.as_str());
        proof {
            assert(keep == pred(s));
        }
        if keep {
            out.push(s);
        }
        i += 1;
    }
    proof {
        assert(orig.take(orig.len() as int) =~= orig);
    }
    out
}

} // verus!
