//! The entry record: a named grade, optionally annotated with the rank and
//! percentile that the ranking engine derives from the surrounding entry set.

use vstd::prelude::*;

use crate::fraction::Fraction;

verus! {

/// A single named grade record.
///
/// `grade` is a fixed-point integer in caller-chosen units (for example
/// hundredths of a point). `rank` and `percentile` are `None` until the
/// ranking engine has run over the entry set that holds this record; they
/// must be recomputed whenever the set's membership or any grade changes.
#[derive(Clone, Debug)]
pub struct Student {
    /// Display name.
    pub name: String,
    /// Grade in fixed-point units.
    pub grade: u32,
    /// Competition rank: 1 for the highest grade, shared by ties.
    pub rank: Option<u32>,
    /// Percentile in `[0, 100]`, exact, shared by ties.
    pub percentile: Option<Fraction>,
}

impl Student {
    /// Creates a student with no rank or percentile attached yet.
    pub fn new(name: String, grade: u32) -> (s: Student)
        ensures
            s.name == name,
            s.grade == grade,
            s.rank is None,
            s.percentile is None,
    {
        Student { name, grade, rank: None, percentile: None }
    }
}

/// `a` and `b` hold the same names and grades, in the same order; only the
/// derived rank/percentile annotations may differ.
pub open spec fn same_core(a: Seq<Student>, b: Seq<Student>) -> bool {
    &&& a.len() == b.len()
    &&& forall|i: int|
        0 <= i < a.len() ==> (#[trigger] a[i]).name == b[i].name && a[i].grade == b[i].grade
}

/// The sequence of grades of an entry sequence, in order.
pub open spec fn grades_of(ss: Seq<Student>) -> Seq<u32> {
    ss.map_values(|s: Student| s.grade)
}

} // verus!
