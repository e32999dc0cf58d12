//! The ranking and percentile engine.
//!
//! Both derived values are pure functions of the multiset of grades present
//! in the entry set, so they are specified against order-insensitive models:
//!
//! * the *rank* of a grade `g` is one plus the number of **distinct** grade
//!   values strictly greater than `g` ("competition ranking with dense
//!   steps": ties share a rank and the rank sequence grows by one per
//!   distinct value);
//! * the *percentile* of a grade `g` is `100` exactly when `g` is the
//!   maximum grade present, and otherwise
//!   `(count_at_most(g) - 1) / (n - 1) * 100`, where `count_at_most(g)`
//!   counts the entries with grade at most `g` — so ties share one value.

use vstd::prelude::*;
use vstd::set_lib::lemma_len_subset;
use vstd::multiset::Multiset;
use vstd::multiset::axiom_count_le_len;
use vstd::multiset::lemma_insert_len;
use vstd::set::axiom_set_insert_len;
use vstd::set::axiom_set_remove_len;

use crate::fraction::Fraction;
use crate::student::Student;
use crate::student::grades_of;
use crate::student::same_core;

verus! {

broadcast use
    vstd::seq_lib::group_to_multiset_ensures,
    vstd::seq_lib::seq_to_set_is_finite,
    vstd::multiset::axiom_filter_count,
;

/// The set of distinct grade values in `gs` that are strictly greater
/// than `g`.
pub open spec fn values_above(gs: Seq<u32>, g: u32) -> Set<u32> {
    gs.to_set().filter(|v: u32| v > g)
}

/// Competition rank of grade `g` within the grades `gs`: one plus the
/// number of distinct grade values strictly above `g`. Ranks of equal
/// grades are equal, and the rank sequence steps by one per distinct value.
pub open spec fn rank_of(gs: Seq<u32>, g: u32) -> nat {
    values_above(gs, g).len() + 1
}

/// How many entries of `gs` (with multiplicity) hold a grade at most `g`.
pub open spec fn count_at_most(gs: Seq<u32>, g: u32) -> nat {
    gs.to_multiset().filter(|v: u32| v <= g).len()
}

/// `g` is at least every grade present in `gs`.
pub open spec fn is_top(gs: Seq<u32>, g: u32) -> bool {
    forall|i: int| 0 <= i < gs.len() ==> gs[i] <= g
}

/// Percentile of grade `g` within the grades `gs`, for a `g` present in
/// `gs`: exactly `100` for the maximum grade, otherwise
/// `(count_at_most(g) - 1) * 100 / (len - 1)` as an exact fraction.
pub open spec fn pct_of(gs: Seq<u32>, g: u32) -> Fraction
    recommends
        gs.contains(g),
{
    if is_top(gs, g) {
        Fraction { num: 100, den: 1 }
    } else {
        Fraction {
            num: ((count_at_most(gs, g) - 1) * 100) as u64,
            den: (gs.len() - 1) as u64,
        }
    }
}

/// Every entry carries exactly the rank and percentile that the grades of
/// the surrounding sequence determine.
pub open spec fn annotated(ss: Seq<Student>) -> bool {
    forall|i: int|
        0 <= i < ss.len() ==> {
            &&& (#[trigger] ss[i]).rank == Some(rank_of(grades_of(ss), ss[i].grade) as u32)
            &&& ss[i].percentile == Some(pct_of(grades_of(ss), ss[i].grade))
        }
}

/// The set of distinct values above a grade is finite.
proof fn lemma_values_above_finite(gs: Seq<u32>, g: u32)
    ensures
        values_above(gs, g).finite(),
        values_above(gs, g).len() <= gs.len(),
{
    gs.to_set().lemma_len_filter(|v: u32| v > g);
    gs.lemma_cardinality_of_set();
}

/// A grade present in `gs` is not counted among the values above itself,
/// so its rank is at most the number of entries.
pub proof fn lemma_rank_bound(gs: Seq<u32>, g: u32)
    requires
        gs.contains(g),
    ensures
        values_above(gs, g).finite(),
        values_above(gs, g).len() < gs.len(),
{
    let s = gs.to_set();
    let va = values_above(gs, g);
    gs.lemma_cardinality_of_set();
    s.lemma_len_filter(|v: u32| v > g);
    assert(va.subset_of(s.remove(g)));
    assert(s.remove(g).finite());
    lemma_len_subset(va, s.remove(g));
    axiom_set_remove_len(s, g);
    assert(s.contains(g));
}

/// Appending one grade either inserts a new element into the set of values
/// above `g`, or leaves that set unchanged.
proof fn lemma_values_above_push(pre: Seq<u32>, x: u32, g: u32)
    ensures
        (x > g && !pre.contains(x)) ==> values_above(pre.push(x), g) == values_above(pre, g).insert(
            x,
        ) && !values_above(pre, g).contains(x),
        (x > g && pre.contains(x)) ==> values_above(pre.push(x), g) == values_above(pre, g),
        x <= g ==> values_above(pre.push(x), g) == values_above(pre, g),
{
    broadcast use vstd::prelude::Seq::lemma_push_to_set_commute;

    if x > g {
        if pre.contains(x) {
            assert(values_above(pre.push(x), g) =~= values_above(pre, g));
        } else {
            assert(values_above(pre.push(x), g) =~= values_above(pre, g).insert(x));
        }
    } else {
        assert(values_above(pre.push(x), g) =~= values_above(pre, g));
    }
}

/// Appending one grade raises `count_at_most` by one exactly when the new
/// grade is at most `g`.
proof fn lemma_count_at_most_push(pre: Seq<u32>, x: u32, g: u32)
    ensures
        count_at_most(pre.push(x), g) == count_at_most(pre, g) + (if x <= g {
            1int
        } else {
            0int
        }),
{
    let p = |v: u32| v <= g;
    let m = pre.to_multiset();
    assert(pre.push(x).to_multiset() == m.insert(x));
    if p(x) {
        assert(m.insert(x).filter(p) =~= m.filter(p).insert(x));
        lemma_insert_len(m.filter(p), x);
    } else {
        assert(m.insert(x).filter(p) =~= m.filter(p));
    }
}

/// A grade present in `gs` is counted by `count_at_most` at least once.
pub proof fn lemma_count_at_most_pos(gs: Seq<u32>, g: u32)
    requires
        gs.contains(g),
    ensures
        count_at_most(gs, g) >= 1,
{
    let p = |v: u32| v <= g;
    let m = gs.to_multiset();
    assert(m.count(g) > 0);
    assert(m.filter(p).count(g) == m.count(g));
    axiom_count_le_len(m.filter(p), g);
}

/// No more entries hold a grade at most `g` than there are entries.
proof fn lemma_count_at_most_le_len(gs: Seq<u32>, g: u32)
    ensures
        count_at_most(gs, g) <= gs.len(),
    decreases gs.len(),
{
    if gs.len() == 0 {
        assert(gs.to_multiset().filter(|v: u32| v <= g) =~= Multiset::<u32>::empty());
    } else {
        let dl = gs.drop_last();
        lemma_count_at_most_le_len(dl, g);
        lemma_count_at_most_push(dl, gs.last(), g);
        assert(dl.push(gs.last()) =~= gs);
    }
}

/// `count_at_most` grows with its threshold.
proof fn lemma_count_at_most_monotone(gs: Seq<u32>, g1: u32, g2: u32)
    requires
        g1 <= g2,
    ensures
        count_at_most(gs, g1) <= count_at_most(gs, g2),
    decreases gs.len(),
{
    if gs.len() == 0 {
        assert(gs.to_multiset().filter(|v: u32| v <= g1) =~= Multiset::<u32>::empty());
        assert(gs.to_multiset().filter(|v: u32| v <= g2) =~= Multiset::<u32>::empty());
    } else {
        let dl = gs.drop_last();
        lemma_count_at_most_monotone(dl, g1, g2);
        lemma_count_at_most_push(dl, gs.last(), g1);
        lemma_count_at_most_push(dl, gs.last(), g2);
        assert(dl.push(gs.last()) =~= gs);
    }
}

/// LAW (data-model invariant): of two entries with distinct grades, the one
/// with the strictly higher grade has the numerically smaller rank and the
/// higher-or-equal percentile value.
pub proof fn lemma_higher_grade_better(ss: Seq<Student>, i: int, j: int)
    requires
        annotated(ss),
        ss.len() <= u32::MAX,
        0 <= i < ss.len(),
        0 <= j < ss.len(),
        ss[i].grade > ss[j].grade,
    ensures
        rank_of(grades_of(ss), ss[i].grade) < rank_of(grades_of(ss), ss[j].grade),
        pct_of(grades_of(ss), ss[i].grade).num * pct_of(grades_of(ss), ss[j].grade).den >= pct_of(
            grades_of(ss),
            ss[j].grade,
        ).num * pct_of(grades_of(ss), ss[i].grade).den,
{
    let gs = grades_of(ss);
    let gi = ss[i].grade;
    let gj = ss[j].grade;
    assert(gs[i] == gi);
    assert(gs[j] == gj);
    assert(gs.contains(gi));
    assert(gs.contains(gj));
    let n = gs.len();
    // Rank: the values above gj include gi and everything above gi.
    lemma_values_above_finite(gs, gj);
    assert(values_above(gs, gi).insert(gi).subset_of(values_above(gs, gj)));
    lemma_rank_bound(gs, gi);
    assert(!values_above(gs, gi).contains(gi));
    axiom_set_insert_len(values_above(gs, gi), gi);
    lemma_len_subset(values_above(gs, gi).insert(gi), values_above(gs, gj));
    // Percentile: gj is not the top grade, so its percentile is the counting
    // fraction, bounded by gi's whichever branch gi takes.
    assert(!is_top(gs, gj));
    lemma_count_at_most_pos(gs, gj);
    lemma_count_at_most_le_len(gs, gj);
    let cj = count_at_most(gs, gj);
    assert(n >= 2);
    assert(pct_of(gs, gj).num == (cj - 1) * 100);
    assert(pct_of(gs, gj).den == n - 1);
    if is_top(gs, gi) {
        // 100/1 against ((cj-1)*100)/(n-1), cross-multiplied:
        // 100*(n-1) >= (cj-1)*100 because cj <= n.
        assert(pct_of(gs, gi).num == 100 && pct_of(gs, gi).den == 1);
        assert(cj <= n);
        assert((cj - 1) * 100 * 1 <= 100 * (n - 1)) by (nonlinear_arith)
            requires
                1 <= cj <= n,
        ;
    } else {
        lemma_count_at_most_pos(gs, gi);
        lemma_count_at_most_le_len(gs, gi);
        lemma_count_at_most_monotone(gs, gj, gi);
        let ci = count_at_most(gs, gi);
        assert(pct_of(gs, gi).num == (ci - 1) * 100);
        assert(pct_of(gs, gi).den == n - 1);
        assert((cj - 1) * 100 * (n - 1) <= (ci - 1) * 100 * (n - 1)) by (nonlinear_arith)
            requires
                1 <= cj <= ci,
                n >= 2,
        ;
    }
}

/// Rank, percentile and their ingredients depend only on the multiset of
/// grades, never on the order of the entries.
pub proof fn lemma_rank_pct_permutation(gs1: Seq<u32>, gs2: Seq<u32>, g: u32)
    requires
        gs1.to_multiset() == gs2.to_multiset(),
    ensures
        rank_of(gs1, g) == rank_of(gs2, g),
        pct_of(gs1, g) == pct_of(gs2, g),
        is_top(gs1, g) == is_top(gs2, g),
        count_at_most(gs1, g) == count_at_most(gs2, g),
{
    assert(gs1.to_set() =~= gs2.to_set()) by {
        assert forall|v: u32| gs1.contains(v) <==> gs2.contains(v) by {
            assert(gs1.contains(v) <==> gs1.to_multiset().count(v) > 0);
            assert(gs2.contains(v) <==> gs2.to_multiset().count(v) > 0);
        }
    }
    assert(gs1.len() == gs2.len()) by {
        assert(gs1.len() == gs1.to_multiset().len());
        assert(gs2.len() == gs2.to_multiset().len());
    }
    assert(is_top(gs1, g) == is_top(gs2, g)) by {
        assert forall|v: u32| gs1.contains(v) <==> gs2.contains(v) by {
            assert(gs1.contains(v) <==> gs1.to_multiset().count(v) > 0);
            assert(gs2.contains(v) <==> gs2.to_multiset().count(v) > 0);
        }
        if is_top(gs1, g) {
            assert forall|i: int| 0 <= i < gs2.len() implies gs2[i] <= g by {
                assert(gs2.contains(gs2[i]));
                let j = choose|j: int| 0 <= j < gs1.len() && gs1[j] == gs2[i];
                assert(gs1[j] <= g);
            }
        }
        if is_top(gs2, g) {
            assert forall|i: int| 0 <= i < gs1.len() implies gs1[i] <= g by {
                assert(gs1.contains(gs1[i]));
                let j = choose|j: int| 0 <= j < gs2.len() && gs2[j] == gs1[i];
                assert(gs2[j] <= g);
            }
        }
    }
}

/// Stepping from a grade `a` down to the next distinct grade `b` present
/// below it adds exactly `a` itself to the set of values above, so the rank
/// grows by exactly one.
proof fn lemma_rank_adjacent_step(gs: Seq<u32>, a: u32, b: u32)
    requires
        gs.contains(a),
        b < a,
        forall|t: int| 0 <= t < gs.len() ==> !(b < #[trigger] gs[t] < a),
    ensures
        rank_of(gs, b) == rank_of(gs, a) + 1,
{
    lemma_values_above_finite(gs, a);
    assert(values_above(gs, b) =~= values_above(gs, a).insert(a)) by {
        assert forall|v: u32| values_above(gs, b).contains(v) implies values_above(gs, a).insert(
            a,
        ).contains(v) by {
            if v != a {
                let t = choose|t: int| 0 <= t < gs.len() && gs[t] == v;
                assert(!(b < gs[t] < a));
            }
        }
    }
    assert(!values_above(gs, a).contains(a));
    axiom_set_insert_len(values_above(gs, a), a);
}

/// LAW: every entry whose grade is the maximum grade present receives
/// percentile `100` exactly (ties at the maximum included).
pub proof fn lemma_top_grade_percentile(ss: Seq<Student>, i: int)
    requires
        annotated(ss),
        0 <= i < ss.len(),
        forall|j: int| 0 <= j < ss.len() ==> (#[trigger] ss[j]).grade <= ss[i].grade,
    ensures
        ss[i].percentile == Some(Fraction { num: 100, den: 1 }),
{
    let gs = grades_of(ss);
    assert(is_top(gs, ss[i].grade)) by {
        assert forall|t: int| 0 <= t < gs.len() implies gs[t] <= ss[i].grade by {
            assert(gs[t] == ss[t].grade);
        }
    }
}

/// LAW: two entries with equal grades always carry equal rank and equal
/// percentile, whatever their names or positions.
pub proof fn lemma_equal_grades_equal_annotation(ss: Seq<Student>, i: int, j: int)
    requires
        annotated(ss),
        0 <= i < ss.len(),
        0 <= j < ss.len(),
        ss[i].grade == ss[j].grade,
    ensures
        ss[i].rank == ss[j].rank,
        ss[i].percentile == ss[j].percentile,
{
}

/// LAW: walked in grade-descending order, the stored ranks form a
/// monotonically non-decreasing sequence of positive integers that steps by
/// exactly one at each distinct-grade boundary and stays equal across ties.
pub proof fn lemma_rank_sequence(ss: Seq<Student>)
    requires
        annotated(ss),
        forall|i: int, j: int|
            0 <= i <= j < ss.len() ==> (#[trigger] ss[i]).grade >= (#[trigger] ss[j]).grade,
    ensures
        forall|i: int|
            0 <= i < ss.len() ==> (#[trigger] ss[i]).rank == Some(
                rank_of(grades_of(ss), ss[i].grade) as u32,
            ),
        forall|i: int|
            0 <= i < ss.len() ==> 1 <= rank_of(grades_of(ss), (#[trigger] ss[i]).grade)
                <= ss.len(),
        forall|i: int, j: int|
            0 <= i <= j < ss.len() ==> rank_of(grades_of(ss), (#[trigger] ss[i]).grade) <= rank_of(
                grades_of(ss),
                (#[trigger] ss[j]).grade,
            ),
        forall|i: int|
            0 <= i < ss.len() - 1 && (#[trigger] ss[i + 1]).grade == ss[i].grade ==> rank_of(
                grades_of(ss),
                ss[i + 1].grade,
            ) == rank_of(grades_of(ss), ss[i].grade),
        forall|i: int|
            0 <= i < ss.len() - 1 && (#[trigger] ss[i + 1]).grade < ss[i].grade ==> rank_of(
                grades_of(ss),
                ss[i + 1].grade,
            ) == rank_of(grades_of(ss), ss[i].grade) + 1,
{
    let gs = grades_of(ss);
    assert(gs.len() == ss.len());
    assert forall|i: int| 0 <= i < ss.len() implies 1 <= rank_of(gs, (#[trigger] ss[i]).grade)
        <= ss.len() by {
        assert(gs[i] == ss[i].grade);
        assert(gs.contains(ss[i].grade));
        lemma_rank_bound(gs, ss[i].grade);
    }
    assert forall|i: int, j: int| 0 <= i <= j < ss.len() implies rank_of(
        gs,
        (#[trigger] ss[i]).grade,
    ) <= rank_of(gs, (#[trigger] ss[j]).grade) by {
        let a = ss[i].grade;
        let b = ss[j].grade;
        assert(b <= a);
        lemma_values_above_finite(gs, b);
        assert(values_above(gs, a).subset_of(values_above(gs, b)));
        lemma_len_subset(values_above(gs, a), values_above(gs, b));
    }
    assert forall|i: int|
        0 <= i < ss.len() - 1 && (#[trigger] ss[i + 1]).grade < ss[i].grade implies rank_of(
        gs,
        ss[i + 1].grade,
    ) == rank_of(gs, ss[i].grade) + 1 by {
        let a = ss[i].grade;
        let b = ss[i + 1].grade;
        assert(gs[i] == a);
        assert(gs.contains(a));
        assert forall|t: int| 0 <= t < gs.len() implies !(b < #[trigger] gs[t] < a) by {
            assert(gs[t] == ss[t].grade);
            if t <= i {
                assert(ss[t].grade >= ss[i].grade);
            } else {
                assert(ss[i + 1].grade >= ss[t].grade);
            }
        }
        lemma_rank_adjacent_step(gs, a, b);
    }
}

/// Permuting the entries permutes their grades.
pub proof fn lemma_grades_of_multiset(a: Seq<Student>, b: Seq<Student>)
    requires
        a.to_multiset() == b.to_multiset(),
    ensures
        grades_of(a).to_multiset() == grades_of(b).to_multiset(),
    decreases a.len(),
{
    if a.len() == 0 {
        assert(a.to_multiset().len() == 0);
        assert(b.len() == 0);
        assert(grades_of(a) =~= grades_of(b));
    } else {
        let x = a.last();
        assert(a.contains(x));
        assert(b.to_multiset().count(x) > 0);
        assert(b.contains(x));
        let k = choose|k: int| 0 <= k < b.len() && b[k] == x;
        let a1 = a.drop_last();
        let b1 = b.remove(k);
        assert(a1 =~= a.remove(a.len() - 1));
        assert(a1.to_multiset() == a.to_multiset().remove(x));
        assert(b1.to_multiset() == b.to_multiset().remove(x));
        lemma_grades_of_multiset(a1, b1);
        assert(grades_of(a) =~= grades_of(a1).push(x.grade));
        assert(grades_of(b1) =~= grades_of(b).remove(k));
        assert(grades_of(b).remove(k).to_multiset() == grades_of(b).to_multiset().remove(
            grades_of(b)[k],
        ));
        assert(grades_of(b)[k] == x.grade);
        assert(grades_of(b).contains(grades_of(b)[k]));
        assert(grades_of(b).to_multiset().count(x.grade) > 0);
        assert(grades_of(a).to_multiset() == grades_of(a1).to_multiset().insert(x.grade));
        assert(grades_of(b).to_multiset().remove(x.grade).insert(x.grade) =~= grades_of(
            b,
        ).to_multiset());
    }
}

/// Annotations survive any permutation of the entries: each entry keeps its
/// own rank and percentile, and both are functions of the grade multiset,
/// which the permutation preserves.
pub proof fn lemma_annotated_permutation(a: Seq<Student>, b: Seq<Student>)
    requires
        annotated(a),
        a.to_multiset() == b.to_multiset(),
    ensures
        annotated(b),
{
    lemma_grades_of_multiset(a, b);
    assert forall|i: int|
        0 <= i < b.len() implies (#[trigger] b[i]).rank == Some(
        rank_of(grades_of(b), b[i].grade) as u32,
    ) && b[i].percentile == Some(pct_of(grades_of(b), b[i].grade)) by {
        assert(b.contains(b[i]));
        assert(b.to_multiset().count(b[i]) > 0);
        assert(a.contains(b[i]));
        let j = choose|j: int| 0 <= j < a.len() && a[j] == b[i];
        assert(a[j].rank == Some(rank_of(grades_of(a), a[j].grade) as u32));
        assert(a[j].percentile == Some(pct_of(grades_of(a), a[j].grade)));
        lemma_rank_pct_permutation(grades_of(a), grades_of(b), b[i].grade);
    }
}

/// Extracts the grades of an entry sequence into a plain vector.
pub fn grades_vec(students: &Vec<Student>) -> (grades: Vec<u32>)
    ensures
        grades@ == grades_of(students@),
{
    let mut grades: Vec<u32> = Vec::new();
    let n = students.len();
    let mut i: usize = 0;
    while i < n
        invariant
            n == students@.len(),
            i <= n,
            grades@.len() == i,
            forall|j: int| 0 <= j < i ==> grades@[j] == students@[j].grade,
        decreases n - i,
    {
        grades.push(students[i].grade);
        i += 1;
    }
    proof {
        assert(grades@ =~= grades_of(students@));
    }
    grades
}

/// Counts the distinct grade values strictly above `g`.
fn count_above_distinct(grades: &Vec<u32>, g: u32) -> (c: u32)
    requires
        grades@.len() <= u32::MAX,
    ensures
        c == values_above(grades@, g).len(),
        c <= grades@.len(),
{
    broadcast use vstd::prelude::Seq::lemma_take_succ_push;

    let n = grades.len();
    let mut c: u32 = 0;
    let mut j: usize = 0;
    proof {
        assert(grades@.take(0) =~= Seq::<u32>::empty());
        assert(values_above(Seq::<u32>::empty(), g) =~= Set::<u32>::empty());
    }
    while j < n
        invariant
            n == grades@.len() <= u32::MAX,
            j <= n,
            c == values_above(grades@.take(j as int), g).len(),
            c <= j,
        decreases n - j,
    {
        let gj = grades[j];
        let ghost pre = grades@.take(j as int);
        if gj > g {
            let mut seen = false;
            let mut k: usize = 0;
            while k < j
                invariant
                    k <= j <= grades@.len(),
                    seen == exists|t: int| 0 <= t < k && grades@[t] == gj,
                decreases j - k,
            {
                if grades[k] == gj {
                    seen = true;
                }
                k += 1;
            }
            proof {
                assert(seen == pre.contains(gj)) by {
                    if seen {
                        let t = choose|t: int| 0 <= t < j && grades@[t] == gj;
                        assert(pre[t] == gj);
                    }
                    if pre.contains(gj) {
                        let t = choose|t: int| 0 <= t < pre.len() && pre[t] == gj;
                        assert(grades@[t] == gj);
                    }
                }
                lemma_values_above_push(pre, gj, g);
                lemma_values_above_finite(pre, g);
                if !seen {
                    axiom_set_insert_len(values_above(pre, g), gj);
                }
            }
            if !seen {
                c = c + 1;
            }
        } else {
            proof {
                lemma_values_above_push(pre, gj, g);
            }
        }
        proof {
            grades@.lemma_take_succ_push(j as int);
        }
        j += 1;
    }
    proof {
        assert(grades@.take(n as int) =~= grades@);
    }
    c
}

/// Counts, with multiplicity, the grades that are at most `g`.
fn count_at_most_exec(grades: &Vec<u32>, g: u32) -> (c: usize)
    ensures
        c == count_at_most(grades@, g),
        c <= grades@.len(),
{
    broadcast use vstd::prelude::Seq::lemma_take_succ_push;

    let n = grades.len();
    let mut c: usize = 0;
    let mut j: usize = 0;
    proof {
        assert(grades@.take(0) =~= Seq::<u32>::empty());
        assert(Seq::<u32>::empty().to_multiset().filter(|v: u32| v <= g) =~= Multiset::<
            u32,
        >::empty());
    }
    while j < n
        invariant
            n == grades@.len(),
            j <= n,
            c == count_at_most(grades@.take(j as int), g),
            c <= j,
        decreases n - j,
    {
        proof {
            lemma_count_at_most_push(grades@.take(j as int), grades@[j as int], g);
            grades@.lemma_take_succ_push(j as int);
        }
        if grades[j] <= g {
            c = c + 1;
        }
        j += 1;
    }
    proof {
        assert(grades@.take(n as int) =~= grades@);
    }
    c
}

/// True when some grade in `grades` is strictly greater than `g`.
fn exists_above(grades: &Vec<u32>, g: u32) -> (r: bool)
    ensures
        r == !is_top(grades@, g),
{
    let n = grades.len();
    let mut j: usize = 0;
    while j < n
        invariant
            n == grades@.len(),
            j <= n,
            forall|t: int| 0 <= t < j ==> grades@[t] <= g,
        decreases n - j,
    {
        if grades[j] > g {
            return true;
        }
        j += 1;
    }
    false
}

/// Computes the competition rank of a grade present in `grades`.
pub fn rank_value(grades: &Vec<u32>, g: u32) -> (r: u32)
    requires
        grades@.contains(g),
        grades@.len() <= u32::MAX,
    ensures
        r == rank_of(grades@, g),
        1 <= r <= grades@.len(),
{
    proof {
        lemma_rank_bound(grades@, g);
    }
    let c = count_above_distinct(grades, g);
    c + 1
}

/// Computes the percentile of a grade present in `grades`.
pub fn percentile_value(grades: &Vec<u32>, g: u32) -> (p: Fraction)
    requires
        grades@.contains(g),
        grades@.len() <= u32::MAX,
    ensures
        p == pct_of(grades@, g),
        p.wf(),
{
    if exists_above(grades, g) {
        proof {
            lemma_count_at_most_pos(grades@, g);
            let i = choose|i: int| 0 <= i < grades@.len() && grades@[i] > g;
            let j = choose|j: int| 0 <= j < grades@.len() && grades@[j] == g;
            assert(i != j);
            assert(grades@.len() >= 2);
        }
        let c = count_at_most_exec(grades, g);
        let num = ((c - 1) as u64) * 100;
        let den = (grades.len() - 1) as u64;
        Fraction::new(num, den)
    } else {
        Fraction::new(100, 1)
    }
}

/// Recomputes the rank and percentile of every entry, leaving names,
/// grades and their order untouched.
pub fn annotate(students: Vec<Student>) -> (out: Vec<Student>)
    requires
        students@.len() <= u32::MAX,
    ensures
        same_core(out@, students@),
        annotated(out@),
{
    let ghost orig = students@;
    let grades = grades_vec(&students);
    let mut v = students;
    let mut out: Vec<Student> = Vec::new();
    let mut i: usize = 0;
    let ghost n = orig.len();
    proof {
        assert(v@ =~= orig.skip(0));
    }
    while v.len() > 0
        invariant
            grades@ == grades_of(orig),
            n == orig.len() <= u32::MAX,
            i + v@.len() == n,
            v@ == orig.skip(i as int),
            out@.len() == i,
            forall|j: int|
                0 <= j < i ==> (#[trigger] out@[j]).name == orig[j].name && out@[j].grade
                    == orig[j].grade,
            forall|j: int|
                0 <= j < i ==> (#[trigger] out@[j]).rank == Some(
                    rank_of(grades@, out@[j].grade) as u32,
                ) && out@[j].percentile == Some(pct_of(grades@, out@[j].grade)),
        decreases v@.len(),
    {
        let mut s = v.remove(0);
        proof {
            assert(orig.skip(i as int)[0] == orig[i as int]);
            assert(orig.skip(i as int).remove(0) =~= orig.skip(i as int + 1));
            assert(grades@[i as int] == orig[i as int].grade);
            assert(grades@.contains(s.grade));
        }
        let r = rank_value(&grades, s.grade);
        let p = percentile_value(&grades, s.grade);
        s.rank = Some(r);
        s.percentile = Some(p);
        out.push(s);
        i += 1;
    }
    proof {
        assert(grades_of(out@) =~= grades@);
    }
    out
}

} // verus!
