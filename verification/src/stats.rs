//! The aggregate statistics calculator.
//!
//! Every aggregate is recomputed wholesale from the current entry snapshot
//! and the configured maximum grade; nothing is cached across mutation. All
//! values are exact: sums and counts as integers, mean / median / pass rate
//! as [`Fraction`]s, and the population standard deviation as the fraction
//! `isqrt(n·Σg² − (Σg)²) / n` — the exact square root floored at a
//! granularity of `1/n` grade units.
//!
//! On an empty entry set every aggregate is zero by policy: no division
//! ever happens.

use vstd::prelude::*;
use vstd::set::axiom_set_remove_len;
use vstd::set_lib::lemma_len_subset;

use crate::fraction::Fraction;
use crate::rank::annotated;
use crate::rank::rank_of;
use crate::rank::values_above;
use crate::rank::lemma_rank_bound;
use crate::rank::rank_value;
use crate::rank::grades_vec;
use crate::rank::annotate;
use crate::sorting::sort_grades;
use crate::sorting::sort_spec;
use crate::sorting::u32_order;
use crate::student::Student;
use crate::student::grades_of;
use crate::student::same_core;

verus! {

broadcast use vstd::seq_lib::seq_to_set_is_finite;

// ---------------------------------------------------------------------------
// Spec-level aggregates
// ---------------------------------------------------------------------------
/// The sum of all grades.
pub open spec fn sum_grades(gs: Seq<u32>) -> int
    decreases gs.len(),
{
    if gs.len() == 0 {
        0
    } else {
        sum_grades(gs.drop_last()) + gs.last()
    }
}

/// The sum of the squares of all grades.
pub open spec fn sum_squares(gs: Seq<u32>) -> int
    decreases gs.len(),
{
    if gs.len() == 0 {
        0
    } else {
        sum_squares(gs.drop_last()) + gs.last() * gs.last()
    }
}

/// How many grades pass: a grade passes when it is at least half the
/// configured maximum, i.e. `2·g >= max_grade`.
pub open spec fn count_passed(gs: Seq<u32>, max_grade: u32) -> nat
    decreases gs.len(),
{
    if gs.len() == 0 {
        0
    } else {
        count_passed(gs.drop_last(), max_grade) + (if 2 * gs.last() >= max_grade {
            1nat
        } else {
            0nat
        })
    }
}

/// The largest grade present, 0 on an empty set.
pub open spec fn max_of(gs: Seq<u32>) -> u32
    decreases gs.len(),
{
    if gs.len() == 0 {
        0
    } else {
        let m = max_of(gs.drop_last());
        if gs.last() > m {
            gs.last()
        } else {
            m
        }
    }
}

/// The smallest grade present, 0 on an empty set.
pub open spec fn min_of(gs: Seq<u32>) -> u32
    decreases gs.len(),
{
    if gs.len() == 0 {
        0
    } else if gs.len() == 1 {
        gs.last()
    } else {
        let m = min_of(gs.drop_last());
        if gs.last() < m {
            gs.last()
        } else {
            m
        }
    }
}

/// The median of the grades: the middle grade of the ascending sorted copy
/// for an odd count, the average of the two middle grades for an even
/// count, zero for an empty set.
pub open spec fn median_of(gs: Seq<u32>) -> Fraction {
    if gs.len() == 0 {
        Fraction::spec_zero()
    } else {
        let sorted = sort_spec(u32_order(), gs);
        if gs.len() % 2 == 1 {
            Fraction { num: sorted[gs.len() as int / 2] as u64, den: 1 }
        } else {
            Fraction {
                num: (sorted[gs.len() as int / 2 - 1] + sorted[gs.len() as int / 2]) as u64,
                den: 2,
            }
        }
    }
}

/// `n·Σg² − (Σg)²`: the population variance times `n²`, a non-negative
/// integer (see [`lemma_sum_squares_cauchy`]).
pub open spec fn variance_disc(gs: Seq<u32>) -> int {
    gs.len() * sum_squares(gs) - sum_grades(gs) * sum_grades(gs)
}

/// `r` is the integer square root (floor) of `v`.
pub open spec fn is_sqrt_floor(v: int, r: int) -> bool {
    0 <= r && r * r <= v < (r + 1) * (r + 1)
}

/// The integer square root (floor) of a non-negative integer.
pub open spec fn sqrt_floor(v: int) -> int {
    choose|r: int| is_sqrt_floor(v, r)
}

/// The population standard deviation of the grades, as the exact fraction
/// `isqrt(n·Σg² − (Σg)²) / n`; zero on an empty set.
pub open spec fn std_dev_of(gs: Seq<u32>) -> Fraction {
    if gs.len() == 0 {
        Fraction::spec_zero()
    } else {
        Fraction { num: sqrt_floor(variance_disc(gs)) as u64, den: gs.len() as u64 }
    }
}

// ---------------------------------------------------------------------------
// Arithmetic lemmas
// ---------------------------------------------------------------------------
/// `Σ(x − gᵢ)² >= 0`, expanded: `n·x² − 2·x·Σg + Σg² >= 0`.
proof fn lemma_point_spread(gs: Seq<u32>, x: int)
    ensures
        gs.len() * x * x - 2 * sum_grades(gs) * x + sum_squares(gs) >= 0,
    decreases gs.len(),
{
    if gs.len() == 0 {
    } else {
        let dl = gs.drop_last();
        let y = gs.last() as int;
        lemma_point_spread(dl, x);
        let n1 = dl.len() as int;
        let s1 = sum_grades(dl);
        let q1 = sum_squares(dl);
        assert((n1 + 1) * x * x - 2 * (s1 + y) * x + (q1 + y * y) == (n1 * x * x - 2 * s1 * x + q1)
            + (x - y) * (x - y)) by (nonlinear_arith);
        assert((x - y) * (x - y) >= 0) by (nonlinear_arith);
    }
}

/// Cauchy–Schwarz for the variance: `n·Σg² >= (Σg)²`, so the variance
/// discriminant is never negative.
pub proof fn lemma_sum_squares_cauchy(gs: Seq<u32>)
    ensures
        variance_disc(gs) >= 0,
    decreases gs.len(),
{
    if gs.len() == 0 {
    } else {
        let dl = gs.drop_last();
        let y = gs.last() as int;
        let n1 = dl.len() as int;
        let s1 = sum_grades(dl);
        let q1 = sum_squares(dl);
        lemma_sum_squares_cauchy(dl);
        lemma_point_spread(dl, y);
        assert((n1 + 1) * (q1 + y * y) - (s1 + y) * (s1 + y) == (n1 * q1 - s1 * s1) + (n1 * y * y
            - 2 * s1 * y + q1)) by (nonlinear_arith);
    }
}

/// The integer square root is unique.
proof fn lemma_sqrt_floor_unique(v: int, r: int)
    requires
        is_sqrt_floor(v, r),
    ensures
        sqrt_floor(v) == r,
{
    assert(is_sqrt_floor(v, sqrt_floor(v))) by {
        assert(exists|c: int| is_sqrt_floor(v, c));
    }
    let c = sqrt_floor(v);
    if c < r {
        assert((c + 1) * (c + 1) <= r * r) by (nonlinear_arith)
            requires
                0 <= c,
                c < r,
        ;
    }
    if r < c {
        assert((r + 1) * (r + 1) <= c * c) by (nonlinear_arith)
            requires
                0 <= r,
                r < c,
        ;
    }
}

/// Bounds the sums: `Σg <= n·(2³²−1)` and `Σg² <= n·(2³²−1)²`.
proof fn lemma_sum_bounds(gs: Seq<u32>)
    ensures
        0 <= sum_grades(gs) <= gs.len() * 0xffff_ffff,
        0 <= sum_squares(gs) <= gs.len() * 0xffff_ffff_0000_0001,
    decreases gs.len(),
{
    if gs.len() == 0 {
    } else {
        let dl = gs.drop_last();
        let y = gs.last() as int;
        lemma_sum_bounds(dl);
        assert(y * y <= 0xffff_ffff_0000_0001) by (nonlinear_arith)
            requires
                0 <= y <= 0xffff_ffff,
        ;
    }
}

// ---------------------------------------------------------------------------
// Executable aggregate computations
// ---------------------------------------------------------------------------
/// The integer square root (floor) of a 128-bit value.
pub fn isqrt(v: u128) -> (r: u64)
    ensures
        is_sqrt_floor(v as int, r as int),
        r == sqrt_floor(v as int),
{
    let mut lo: u128 = 0;
    let mut hi: u128 = 0x1_0000_0000_0000_0000;
    proof {
        assert((hi as int) * (hi as int) > v as int);
    }
    while lo + 1 < hi
        invariant
            0 <= lo < hi <= 0x1_0000_0000_0000_0000,
            (lo as int) * (lo as int) <= v as int,
            (hi as int) * (hi as int) > v as int,
        decreases hi - lo,
    {
        let mid = lo + (hi - lo) / 2;
        proof {
            assert(lo < mid < hi);
            assert((mid as int) * (mid as int) < 0x1_0000_0000_0000_0000_0000_0000_0000_0000)
                by (nonlinear_arith)
                requires
                    0 <= mid < 0x1_0000_0000_0000_0000,
            ;
        }
        if mid * mid <= v {
            lo = mid;
        } else {
            hi = mid;
        }
    }
    proof {
        lemma_sqrt_floor_unique(v as int, lo as int);
    }
    lo as u64
}

/// Computes the sum of the grades.
fn sum_grades_exec(grades: &Vec<u32>) -> (s: u64)
    requires
        grades@.len() <= u32::MAX,
    ensures
        s == sum_grades(grades@),
{
    let n = grades.len();
    let mut s: u64 = 0;
    let mut j: usize = 0;
    proof {
        assert(grades@.take(0) =~= Seq::<u32>::empty());
    }
    while j < n
        invariant
            n == grades@.len() <= u32::MAX,
            j <= n,
            s == sum_grades(grades@.take(j as int)),
            s <= j * 0xffff_ffff,
        decreases n - j,
    {
        proof {
            assert(grades@.take(j as int + 1).drop_last() =~= grades@.take(j as int));
            assert(grades@.take(j as int + 1).last() == grades@[j as int]);
            assert((j + 1) * 0xffff_ffff == j * 0xffff_ffff + 0xffff_ffff) by (nonlinear_arith);
            assert(j * 0xffff_ffff <= 0xffff_ffff * 0xffff_ffff) by (nonlinear_arith)
                requires
                    0 <= j <= 0xffff_ffff,
            ;
        }
        s = s + grades[j] as u64;
        j += 1;
    }
    proof {
        assert(grades@.take(n as int) =~= grades@);
    }
    s
}

/// Computes the sum of the squared grades.
fn sum_squares_exec(grades: &Vec<u32>) -> (q: u128)
    requires
        grades@.len() <= u32::MAX,
    ensures
        q == sum_squares(grades@),
{
    let n = grades.len();
    let mut q: u128 = 0;
    let mut j: usize = 0;
    proof {
        assert(grades@.take(0) =~= Seq::<u32>::empty());
    }
    while j < n
        invariant
            n == grades@.len() <= u32::MAX,
            j <= n,
            q == sum_squares(grades@.take(j as int)),
            q <= j * 0xffff_ffff_0000_0001,
        decreases n - j,
    {
        let g = grades[j] as u128;
        proof {
            assert(grades@.take(j as int + 1).drop_last() =~= grades@.take(j as int));
            assert(grades@.take(j as int + 1).last() == grades@[j as int]);
            assert((g as int) * (g as int) <= 0xffff_ffff_0000_0001) by (nonlinear_arith)
                requires
                    0 <= g <= 0xffff_ffff,
            ;
            assert((j + 1) * 0xffff_ffff_0000_0001 == j * 0xffff_ffff_0000_0001
                + 0xffff_ffff_0000_0001) by (nonlinear_arith);
            assert(j * 0xffff_ffff_0000_0001 <= 0xffff_ffff * 0xffff_ffff_0000_0001)
                by (nonlinear_arith)
                requires
                    0 <= j <= 0xffff_ffff,
            ;
        }
        q = q + g * g;
        j += 1;
    }
    proof {
        assert(grades@.take(n as int) =~= grades@);
    }
    q
}

/// Counts the passing grades: those with `2·g >= max_grade`.
fn count_passed_exec(grades: &Vec<u32>, max_grade: u32) -> (c: usize)
    ensures
        c == count_passed(grades@, max_grade),
        c <= grades@.len(),
{
    let n = grades.len();
    let mut c: usize = 0;
    let mut j: usize = 0;
    proof {
        assert(grades@.take(0) =~= Seq::<u32>::empty());
    }
    while j < n
        invariant
            n == grades@.len(),
            j <= n,
            c == count_passed(grades@.take(j as int), max_grade),
            c <= j,
        decreases n - j,
    {
        proof {
            assert(grades@.take(j as int + 1).drop_last() =~= grades@.take(j as int));
            assert(grades@.take(j as int + 1).last() == grades@[j as int]);
        }
        if 2 * (grades[j] as u64) >= max_grade as u64 {
            c = c + 1;
        }
        j += 1;
    }
    proof {
        assert(grades@.take(n as int) =~= grades@);
    }
    c
}

/// Computes the largest grade, 0 if there are none.
fn max_grade_exec(grades: &Vec<u32>) -> (m: u32)
    ensures
        m == max_of(grades@),
{
    let n = grades.len();
    let mut m: u32 = 0;
    let mut j: usize = 0;
    proof {
        assert(grades@.take(0) =~= Seq::<u32>::empty());
    }
    while j < n
        invariant
            n == grades@.len(),
            j <= n,
            m == max_of(grades@.take(j as int)),
        decreases n - j,
    {
        proof {
            assert(grades@.take(j as int + 1).drop_last() =~= grades@.take(j as int));
            assert(grades@.take(j as int + 1).last() == grades@[j as int]);
        }
        if grades[j] > m {
            m = grades[j];
        }
        j += 1;
    }
    proof {
        assert(grades@.take(n as int) =~= grades@);
    }
    m
}

/// Computes the smallest grade, 0 if there are none.
fn min_grade_exec(grades: &Vec<u32>) -> (m: u32)
    ensures
        m == min_of(grades@),
{
    let n = grades.len();
    if n == 0 {
        return 0;
    }
    let mut m: u32 = grades[0];
    let mut j: usize = 1;
    proof {
        assert(grades@.take(1).len() == 1);
        assert(grades@.take(1).last() == grades@[0]);
    }
    while j < n
        invariant
            n == grades@.len(),
            1 <= j <= n,
            m == min_of(grades@.take(j as int)),
        decreases n - j,
    {
        proof {
            assert(grades@.take(j as int + 1).drop_last() =~= grades@.take(j as int));
            assert(grades@.take(j as int + 1).last() == grades@[j as int]);
            assert(grades@.take(j as int + 1).len() == j + 1);
        }
        if grades[j] < m {
            m = grades[j];
        }
        j += 1;
    }
    proof {
        assert(grades@.take(n as int) =~= grades@);
    }
    m
}

/// The minimum is attained and bounds every grade.
pub proof fn lemma_min_of_props(gs: Seq<u32>)
    requires
        gs.len() > 0,
    ensures
        gs.contains(min_of(gs)),
        forall|i: int| 0 <= i < gs.len() ==> min_of(gs) <= #[trigger] gs[i],
    decreases gs.len(),
{
    if gs.len() == 1 {
        assert(gs[0] == gs.last());
    } else {
        let dl = gs.drop_last();
        lemma_min_of_props(dl);
        if gs.last() < min_of(dl) {
            assert(gs[gs.len() - 1] == gs.last());
        } else {
            let t = choose|t: int| 0 <= t < dl.len() && dl[t] == min_of(dl);
            assert(gs[t] == min_of(dl));
        }
        assert forall|i: int| 0 <= i < gs.len() implies min_of(gs) <= #[trigger] gs[i] by {
            if i < gs.len() - 1 {
                assert(min_of(dl) <= dl[i]);
            }
        }
    }
}

/// The maximum is attained (on a non-empty set) and bounds every grade.
pub proof fn lemma_max_of_props(gs: Seq<u32>)
    requires
        gs.len() > 0,
    ensures
        gs.contains(max_of(gs)),
        forall|i: int| 0 <= i < gs.len() ==> #[trigger] gs[i] <= max_of(gs),
    decreases gs.len(),
{
    if gs.len() == 1 {
        assert(gs.drop_last() =~= Seq::<u32>::empty());
        assert(max_of(Seq::<u32>::empty()) == 0);
        assert(gs[0] == gs.last());
        assert(gs.contains(gs[0]));
    } else {
        let dl = gs.drop_last();
        lemma_max_of_props(dl);
        if gs.last() > max_of(dl) {
            assert(gs[gs.len() - 1] == gs.last());
        } else {
            if dl.len() == 0 {
                assert(gs[gs.len() - 1] == gs.last());
            } else {
                let t = choose|t: int| 0 <= t < dl.len() && dl[t] == max_of(dl);
                assert(gs[t] == max_of(dl));
            }
        }
        assert forall|i: int| 0 <= i < gs.len() implies #[trigger] gs[i] <= max_of(gs) by {
            if i < gs.len() - 1 {
                assert(dl[i] <= max_of(dl));
            }
        }
    }
}

/// The rank of the smallest grade is the number of distinct grades, and no
/// rank exceeds it: it is the highest (numerically largest) rank assigned.
pub proof fn lemma_rank_of_min(gs: Seq<u32>)
    requires
        gs.len() > 0,
    ensures
        rank_of(gs, min_of(gs)) == gs.to_set().len(),
        forall|g: u32| gs.contains(g) ==> rank_of(gs, g) <= gs.to_set().len(),
{
    lemma_min_of_props(gs);
    let m = min_of(gs);
    assert(values_above(gs, m) =~= gs.to_set().remove(m)) by {
        assert forall|v: u32| gs.to_set().remove(m).contains(v) implies values_above(
            gs,
            m,
        ).contains(v) by {
            let t = choose|t: int| 0 <= t < gs.len() && gs[t] == v;
            assert(m <= gs[t]);
        }
    }
    axiom_set_remove_len(gs.to_set(), m);
    assert(gs.to_set().contains(m));
    assert forall|g: u32| gs.contains(g) implies rank_of(gs, g) <= gs.to_set().len() by {
        lemma_rank_bound(gs, g);
        assert(values_above(gs, g).subset_of(gs.to_set().remove(g)));
        axiom_set_remove_len(gs.to_set(), g);
        lemma_len_subset(values_above(gs, g), gs.to_set().remove(g));
    }
}

/// LAW: on a non-empty annotated entry set, the number of distinct grades —
/// the value reported as `highest_rank` — is a rank some entry actually
/// holds, and no entry's rank exceeds it: it is the maximum rank present.
pub proof fn lemma_highest_rank_is_max(ss: Seq<Student>)
    requires
        annotated(ss),
        ss.len() <= u32::MAX,
        ss.len() > 0,
    ensures
        exists|i: int|
            0 <= i < ss.len() && (#[trigger] ss[i]).rank == Some(
                grades_of(ss).to_set().len() as u32,
            ),
        forall|i: int|
            0 <= i < ss.len() ==> rank_of(grades_of(ss), (#[trigger] ss[i]).grade) <= grades_of(
                ss,
            ).to_set().len(),
{
    let gs = grades_of(ss);
    assert(gs.len() == ss.len());
    lemma_min_of_props(gs);
    lemma_rank_of_min(gs);
    let t = choose|t: int| 0 <= t < gs.len() && gs[t] == min_of(gs);
    assert(ss[t].grade == min_of(gs));
    assert(ss[t].rank == Some(rank_of(gs, min_of(gs)) as u32));
    assert forall|i: int|
        0 <= i < ss.len() implies rank_of(gs, (#[trigger] ss[i]).grade)
        <= gs.to_set().len() by {
        assert(gs[i] == ss[i].grade);
        assert(gs.contains(ss[i].grade));
    }
}

// ---------------------------------------------------------------------------
// The statistics record
// ---------------------------------------------------------------------------
/// The aggregate statistics of one entry snapshot: a pure, recomputable
/// projection, never mutated in place.
#[derive(Clone, Copy, Debug, PartialEq, Eq, Structural)]
pub struct ExamStatistics {
    /// Number of entries.
    pub total_students: u32,
    /// Entries with `2·grade >= max_grade`.
    pub passed_students: u32,
    /// Entries below the pass threshold.
    pub failed_students: u32,
    /// `passed / total · 100`, exactly; zero on an empty set.
    pub pass_rate: Fraction,
    /// Arithmetic mean of the grades; zero on an empty set.
    pub mean: Fraction,
    /// Median of the grades; zero on an empty set.
    pub median: Fraction,
    /// Population standard deviation, floored at `1/n` grade units; zero on
    /// an empty set.
    pub std_dev: Fraction,
    /// The configured grade ceiling this record was computed against.
    pub max_grade: u32,
    /// Largest grade present; 0 on an empty set.
    pub highest_grade: u32,
    /// Smallest grade present; 0 on an empty set.
    pub lowest_grade: u32,
    /// The numerically largest rank assigned: the number of distinct
    /// grades; 0 on an empty set.
    pub highest_rank: u32,
}

/// What the statistics record of a grade snapshot must hold.
pub open spec fn stats_match(s: ExamStatistics, gs: Seq<u32>, max_grade: u32) -> bool {
    let n = gs.len();
    &&& s.total_students == n
    &&& s.passed_students == count_passed(gs, max_grade)
    &&& s.failed_students == n - count_passed(gs, max_grade)
    &&& s.pass_rate == (if n == 0 {
        Fraction::spec_zero()
    } else {
        Fraction { num: (count_passed(gs, max_grade) * 100) as u64, den: n as u64 }
    })
    &&& s.mean == (if n == 0 {
        Fraction::spec_zero()
    } else {
        Fraction { num: sum_grades(gs) as u64, den: n as u64 }
    })
    &&& s.median == median_of(gs)
    &&& s.std_dev == std_dev_of(gs)
    &&& s.max_grade == max_grade
    &&& s.highest_grade == max_of(gs)
    &&& s.lowest_grade == min_of(gs)
    &&& s.highest_rank == gs.to_set().len()
}

/// Computes every aggregate from a grade snapshot.
fn stats_of_grades(grades: &Vec<u32>, max_grade: u32) -> (s: ExamStatistics)
    requires
        grades@.len() <= u32::MAX,
    ensures
        stats_match(s, grades@, max_grade),
{
    let n = grades.len();
    let passed = count_passed_exec(grades, max_grade);
    let total32 = n as u32;
    let passed32 = passed as u32;
    let failed32 = total32 - passed32;
    let pass_rate = if n == 0 {
        Fraction::zero()
    } else {
        Fraction::new((passed as u64) * 100, n as u64)
    };
    let sum = sum_grades_exec(grades);
    proof {
        lemma_sum_bounds(grades@);
    }
    let mean = if n == 0 {
        Fraction::zero()
    } else {
        Fraction::new(sum, n as u64)
    };
    let median = median_exec(grades);
    let std_dev = std_dev_exec(grades);
    let highest_grade = max_grade_exec(grades);
    let lowest_grade = min_grade_exec(grades);
    let highest_rank = if n == 0 {
        0
    } else {
        proof {
            lemma_min_of_props(grades@);
            lemma_rank_of_min(grades@);
        }
        rank_value(grades, lowest_grade)
    };
    proof {
        if n == 0 {
            assert(grades@ =~= Seq::<u32>::empty());
            assert(grades@.to_set() =~= Set::<u32>::empty());
            assert(grades@.to_set().len() == 0) by {
                grades@.lemma_cardinality_of_empty_set_is_0();
            }
        }
    }
    ExamStatistics {
        total_students: total32,
        passed_students: passed32,
        failed_students: failed32,
        pass_rate,
        mean,
        median,
        std_dev,
        max_grade,
        highest_grade,
        lowest_grade,
        highest_rank,
    }
}

/// Computes the median from a sorted copy of the grades.
fn median_exec(grades: &Vec<u32>) -> (m: Fraction)
    ensures
        m == median_of(grades@),
{
    let n = grades.len();
    if n == 0 {
        return Fraction::zero();
    }
    let mut sorted: Vec<u32> = Vec::new();
    let mut j: usize = 0;
    while j < n
        invariant
            n == grades@.len(),
            j <= n,
            sorted@ == grades@.take(j as int),
        decreases n - j,
    {
        sorted.push(grades[j]);
        proof {
            assert(sorted@ =~= grades@.take(j as int + 1));
        }
        j += 1;
    }
    proof {
        assert(grades@.take(n as int) =~= grades@);
    }
    sort_grades(&mut sorted);
    proof {
        crate::sorting::lemma_sort_spec_multiset(u32_order(), grades@);
    }
    let mid = n / 2;
    if n % 2 == 1 {
        Fraction::new(sorted[mid] as u64, 1)
    } else {
        Fraction::new(sorted[mid - 1] as u64 + sorted[mid] as u64, 2)
    }
}

/// Computes the population standard deviation as
/// `isqrt(n·Σg² − (Σg)²) / n`.
fn std_dev_exec(grades: &Vec<u32>) -> (sd: Fraction)
    requires
        grades@.len() <= u32::MAX,
    ensures
        sd == std_dev_of(grades@),
{
    let n = grades.len();
    if n == 0 {
        return Fraction::zero();
    }
    let sum = sum_grades_exec(grades);
    let sq = sum_squares_exec(grades);
    proof {
        lemma_sum_bounds(grades@);
        lemma_sum_squares_cauchy(grades@);
        assert((n as int) * (sq as int) <= 0xffff_ffff * (0xffff_ffff * 0xffff_ffff_0000_0001))
            by (nonlinear_arith)
            requires
                0 <= n <= 0xffff_ffff,
                0 <= sq <= 0xffff_ffff * 0xffff_ffff_0000_0001,
        ;
        assert((sum as int) * (sum as int) <= (0xffff_ffff * 0xffff_ffff) * (0xffff_ffff
            * 0xffff_ffff)) by (nonlinear_arith)
            requires
                0 <= sum <= 0xffff_ffff * 0xffff_ffff,
        ;
    }
    let disc: u128 = (n as u128) * sq - (sum as u128) * (sum as u128);
    let root = isqrt(disc);
    Fraction::new(root, n as u64)
}

/// Attaches rank and percentile to every entry and computes the aggregate
/// statistics of the snapshot, against the given grade ceiling.
impl ExamStatistics {
    /// Runs the ranking engine over the entries in place, then computes
    /// every aggregate from the resulting snapshot.
    pub fn new(students: &mut Vec<Student>, max_grade: u32) -> (s: ExamStatistics)
        requires
            old(students)@.len() <= u32::MAX,
        ensures
            same_core(final(students)@, old(students)@),
            annotated(final(students)@),
            stats_match(s, grades_of(final(students)@), max_grade),
    {
        let mut taken: Vec<Student> = Vec::new();
        core::mem::swap(students, &mut taken);
        let mut out = annotate(taken);
        core::mem::swap(students, &mut out);
        stats_core(students, max_grade)
    }
}

/// Computes the aggregate statistics of an already annotated snapshot.
pub fn stats_core(students: &Vec<Student>, max_grade: u32) -> (s: ExamStatistics)
    requires
        students@.len() <= u32::MAX,
    ensures
        stats_match(s, grades_of(students@), max_grade),
{
    let grades = grades_vec(students);
    stats_of_grades(&grades, max_grade)
}

} // verus!
