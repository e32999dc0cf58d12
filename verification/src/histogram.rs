//! The histogram bucketizer.
//!
//! Grades are counted into fixed-width half-open buckets
//! `[0, step), [step, 2·step), …` covering `[0, max_grade]`. A grade equal
//! to `max_grade` belongs to the *last* bucket rather than overflowing past
//! it, and a grade strictly greater than `max_grade` is clamped into the
//! last bucket and raises the `overflow` flag — counting is unaffected by
//! how the caller surfaces that warning. A zero `max_grade` still yields
//! one non-degenerate bucket.

use vstd::prelude::*;
use vstd::arithmetic::div_mod::lemma_div_is_ordered;
use vstd::arithmetic::div_mod::lemma_div_plus_one;
use vstd::arithmetic::div_mod::lemma_div_pos_is_pos;
use vstd::arithmetic::div_mod::lemma_div_by_multiple;

verus! {

/// How many buckets cover `[0, max_grade]` with width `step`:
/// `ceil(max_grade / step)`, and one bucket when `max_grade` is zero.
pub open spec fn bucket_count_of(max_grade: u32, step: u32) -> int {
    if max_grade == 0 {
        1
    } else {
        (max_grade + step - 1) / (step as int)
    }
}

/// The bucket a grade falls into: grades at or above the ceiling land in
/// the last bucket, every other grade in bucket `g / step`.
pub open spec fn bucket_index_of(g: u32, max_grade: u32, step: u32) -> int {
    if g >= max_grade {
        bucket_count_of(max_grade, step) - 1
    } else {
        g as int / step as int
    }
}

/// How many grades of `gs` fall into bucket `b`.
pub open spec fn bucket_tally(gs: Seq<u32>, max_grade: u32, step: u32, b: int) -> nat
    decreases gs.len(),
{
    if gs.len() == 0 {
        0
    } else {
        bucket_tally(gs.drop_last(), max_grade, step, b) + (if bucket_index_of(
            gs.last(),
            max_grade,
            step,
        ) == b {
            1nat
        } else {
            0nat
        })
    }
}

/// Some grade exceeds the configured ceiling.
pub open spec fn has_overflow(gs: Seq<u32>, max_grade: u32) -> bool {
    exists|i: int| 0 <= i < gs.len() && #[trigger] gs[i] > max_grade
}

/// The bucket count is at least one and at most `max_grade`.
proof fn lemma_bucket_count_bounds(max_grade: u32, step: u32)
    requires
        step >= 1,
    ensures
        1 <= bucket_count_of(max_grade, step),
        bucket_count_of(max_grade, step) <= vstd::math::max(max_grade as int, 1),
{
    if max_grade == 0 {
    } else {
        let s = step as int;
        let m = max_grade as int;
        lemma_div_is_ordered(s, m + s - 1, s);
        assert(s / s == 1) by {
            vstd::arithmetic::div_mod::lemma_div_by_self(s);
        }
        assert(m + s - 1 <= m * s) by (nonlinear_arith)
            requires
                m >= 1,
                s >= 1,
        ;
        lemma_div_is_ordered(m + s - 1, m * s, s);
        lemma_div_by_multiple(m, s);
    }
}

/// Every grade's bucket index is in range.
proof fn lemma_bucket_index_range(g: u32, max_grade: u32, step: u32)
    requires
        step >= 1,
    ensures
        0 <= bucket_index_of(g, max_grade, step) < bucket_count_of(max_grade, step),
{
    lemma_bucket_count_bounds(max_grade, step);
    if g < max_grade {
        let s = step as int;
        let m = max_grade as int;
        lemma_div_pos_is_pos(g as int, s);
        lemma_div_is_ordered(g as int, m - 1, s);
        lemma_div_plus_one(m - 1, s);
        assert((m - 1) / s + 1 == (m + s - 1) / s);
    }
}

/// A histogram: one count per bucket, plus the overflow flag.
#[derive(Debug)]
pub struct Histogram {
    /// Count of grades per bucket, in bucket order.
    pub buckets: Vec<u32>,
    /// True when some grade exceeded the ceiling and was clamped.
    pub overflow: bool,
}

/// Buckets a grade snapshot.
pub fn histogram_of(grades: &Vec<u32>, max_grade: u32, step: u32) -> (h: Histogram)
    requires
        step >= 1,
        grades@.len() <= u32::MAX,
    ensures
        h.buckets@.len() == bucket_count_of(max_grade, step),
        forall|b: int|
            0 <= b < h.buckets@.len() ==> #[trigger] h.buckets@[b] == bucket_tally(
                grades@,
                max_grade,
                step,
                b,
            ),
        h.overflow == has_overflow(grades@, max_grade),
{
    proof {
        lemma_bucket_count_bounds(max_grade, step);
    }
    let nb: usize = if max_grade == 0 {
        1
    } else {
        (((max_grade as u64) + (step as u64) - 1) / (step as u64)) as usize
    };
    proof {
        assert(nb == bucket_count_of(max_grade, step));
    }
    let mut buckets: Vec<u32> = Vec::new();
    while buckets.len() < nb
        invariant
            buckets@.len() <= nb,
            forall|b: int| 0 <= b < buckets@.len() ==> #[trigger] buckets@[b] == 0,
        decreases nb - buckets@.len(),
    {
        buckets.push(0);
    }
    proof {
        assert(grades@.take(0) =~= Seq::<u32>::empty());
    }
    let n = grades.len();
    let mut overflow = false;
    let mut j: usize = 0;
    while j < n
        invariant
            step >= 1,
            n == grades@.len() <= u32::MAX,
            j <= n,
            buckets@.len() == nb == bucket_count_of(max_grade, step),
            forall|b: int|
                0 <= b < nb ==> #[trigger] buckets@[b] == bucket_tally(
                    grades@.take(j as int),
                    max_grade,
                    step,
                    b,
                ),
            forall|b: int| 0 <= b < nb ==> #[trigger] buckets@[b] <= j,
            overflow == has_overflow(grades@.take(j as int), max_grade),
        decreases n - j,
    {
        let g = grades[j];
        let ghost pre = grades@.take(j as int);
        proof {
            assert(grades@.take(j as int + 1).drop_last() =~= pre);
            assert(grades@.take(j as int + 1).last() == grades@[j as int]);
            lemma_bucket_index_range(g, max_grade, step);
        }
        if g > max_grade {
            overflow = true;
        }
        let idx: usize = if g >= max_grade {
            nb - 1
        } else {
            (g / step) as usize
        };
        proof {
            assert(idx as int == bucket_index_of(g, max_grade, step));
        }
        let cur = buckets[idx];
        buckets.set(idx, cur + 1);
        proof {
            assert(has_overflow(grades@.take(j as int + 1), max_grade) == (has_overflow(
                pre,
                max_grade,
            ) || grades@[j as int] > max_grade)) by {
                if has_overflow(grades@.take(j as int + 1), max_grade) {
                    let t = choose|t: int|
                        0 <= t < j + 1 && #[trigger] grades@.take(j as int + 1)[t] > max_grade;
                    if t < j {
                        assert(pre[t] > max_grade);
                    }
                }
                if has_overflow(pre, max_grade) {
                    let t = choose|t: int| 0 <= t < j && #[trigger] pre[t] > max_grade;
                    assert(grades@.take(j as int + 1)[t] > max_grade);
                }
                if grades@[j as int] > max_grade {
                    assert(grades@.take(j as int + 1)[j as int] > max_grade);
                }
            }
        }
        j += 1;
    }
    proof {
        assert(grades@.take(n as int) =~= grades@);
    }
    Histogram { buckets, overflow }
}

} // verus!
