//! The sort round-trip law.
//!
//! Sorting by grade means: stable-sort by folded name, then stable-sort by
//! grade descending — the second sort's stability keeps equal grades in name
//! order. This module proves that the result is a fixed point: sorting the
//! grade-sorted sequence by name and then by grade again reproduces it
//! exactly, so the grade order (with its name tie-break) is deterministic.
//!
//! The proof works through *grade classes*: the subsequence of entries of
//! one grade. A stable sort never reorders a class it considers tied, and a
//! name sort leaves a name-sorted class untouched; two grade-sorted
//! sequences whose classes agree are equal.

use vstd::prelude::*;
use vstd::relations::sorted_by;

use crate::sorting::grade_order;
use crate::sorting::insert_sorted;
use crate::sorting::name_order;
use crate::sorting::sort_spec;
use crate::sorting::total;
use crate::sorting::transitive;
use crate::sorting::lemma_grade_order_props;
use crate::sorting::lemma_name_order_props;
use crate::sorting::lemma_sort_of_sorted_id;
use crate::sorting::lemma_sort_spec_multiset;
use crate::sorting::lemma_sort_spec_sorted;
use crate::student::Student;

verus! {

broadcast use
    vstd::prelude::Seq::lemma_filter_push,
    vstd::prelude::Seq::filter_distributes_over_add,
    vstd::prelude::Seq::lemma_filter_len,
    vstd::prelude::Seq::lemma_filter_pred,
    vstd::prelude::Seq::lemma_filter_contains,
    vstd::seq_lib::group_to_multiset_ensures,
;

/// The subsequence of entries holding grade `g`, in order.
pub open spec fn grade_class(s: Seq<Student>, g: u32) -> Seq<Student> {
    s.filter(|e: Student| e.grade == g)
}

/// Every element of a filtered sequence is an element of the base sequence.
proof fn lemma_filter_membership<T>(s: Seq<T>, p: spec_fn(T) -> bool, k: int)
    requires
        0 <= k < s.filter(p).len(),
    ensures
        s.contains(s.filter(p)[k]),
    decreases s.len(),
{
    reveal(Seq::filter);
    if s.len() > 0 {
        let dl = s.drop_last();
        if p(s.last()) && k == s.filter(p).len() - 1 {
            assert(s.filter(p)[k] == s.last());
        } else {
            lemma_filter_membership(dl, p, k);
            let j = choose|j: int| 0 <= j < dl.len() && dl[j] == dl.filter(p)[k];
            assert(s[j] == s.filter(p)[k]);
        }
    }
}

/// A subsequence selected out of a sorted sequence is sorted.
proof fn lemma_filter_sorted<T>(s: Seq<T>, p: spec_fn(T) -> bool, leq: spec_fn(T, T) -> bool)
    requires
        sorted_by(s, leq),
    ensures
        sorted_by(s.filter(p), leq),
    decreases s.len(),
{
    reveal(Seq::filter);
    if s.len() > 0 {
        let dl = s.drop_last();
        assert(sorted_by(dl, leq)) by {
            assert forall|i: int, j: int| 0 <= i < j < dl.len() implies leq(dl[i], dl[j]) by {
                assert(leq(s[i], s[j]));
            }
        }
        lemma_filter_sorted(dl, p, leq);
        if p(s.last()) {
            let out = dl.filter(p).push(s.last());
            assert forall|i: int, j: int| 0 <= i < j < out.len() implies leq(out[i], out[j]) by {
                if j < out.len() - 1 {
                    assert(leq(dl.filter(p)[i], dl.filter(p)[j]));
                } else {
                    lemma_filter_membership(dl, p, i);
                    let t = choose|t: int| 0 <= t < dl.len() && dl[t] == dl.filter(p)[i];
                    assert(leq(s[t], s[s.len() - 1]));
                }
            }
        }
    }
}

/// Inserting an element the filter rejects does not change the filtered
/// subsequence.
proof fn lemma_insert_filter_out<T>(
    leq: spec_fn(T, T) -> bool,
    x: T,
    s: Seq<T>,
    p: spec_fn(T) -> bool,
)
    requires
        !p(x),
    ensures
        insert_sorted(leq, x, s).filter(p) == s.filter(p),
    decreases s.len(),
{
    reveal(Seq::filter);
    assert(seq![x] =~= Seq::<T>::empty().push(x));
    if s.len() == 0 {
        assert(insert_sorted(leq, x, s).filter(p) =~= s.filter(p));
    } else if !leq(s[0], x) {
        assert((seq![x] + s).filter(p) == seq![x].filter(p) + s.filter(p));
        assert(seq![x].filter(p) =~= Seq::<T>::empty());
        assert(Seq::<T>::empty() + s.filter(p) =~= s.filter(p));
    } else {
        let rest = s.drop_first();
        lemma_insert_filter_out(leq, x, rest, p);
        assert(seq![s[0]] =~= Seq::<T>::empty().push(s[0]));
        assert((seq![s[0]] + insert_sorted(leq, x, rest)).filter(p) == seq![s[0]].filter(p)
            + rest.filter(p));
        assert(s =~= seq![s[0]] + rest);
        assert(s.filter(p) == seq![s[0]].filter(p) + rest.filter(p));
    }
}

/// Inserting an element the filter keeps, into a sorted sequence whose kept
/// elements all sit at or below it, appends it to the filtered subsequence.
proof fn lemma_insert_filter_top<T>(
    leq: spec_fn(T, T) -> bool,
    x: T,
    s: Seq<T>,
    p: spec_fn(T) -> bool,
)
    requires
        p(x),
        sorted_by(s, leq),
        total(leq),
        transitive(leq),
        forall|k: int| 0 <= k < s.len() && p(#[trigger] s[k]) ==> leq(s[k], x),
    ensures
        insert_sorted(leq, x, s).filter(p) == s.filter(p).push(x),
    decreases s.len(),
{
    reveal(Seq::filter);
    assert(seq![x] =~= Seq::<T>::empty().push(x));
    if s.len() == 0 {
        assert(insert_sorted(leq, x, s).filter(p) =~= s.filter(p).push(x));
    } else if !leq(s[0], x) {
        assert((seq![x] + s).filter(p) == seq![x].filter(p) + s.filter(p));
        assert(s.filter(p) =~= Seq::<T>::empty()) by {
            if s.filter(p).len() > 0 {
                lemma_filter_membership(s, p, 0);
                let t = choose|t: int| 0 <= t < s.len() && s[t] == s.filter(p)[0];
                assert(p(s[t]));
                assert(leq(s[t], x));
                if t > 0 {
                    assert(leq(s[0], s[t]));
                }
                assert(leq(s[0], x));
            }
        }
        assert(seq![x].filter(p) =~= seq![x]);
        assert(seq![x] + Seq::<T>::empty() =~= Seq::<T>::empty().push(x));
    } else {
        let rest = s.drop_first();
        assert(sorted_by(rest, leq)) by {
            assert forall|i: int, j: int| 0 <= i < j < rest.len() implies leq(rest[i], rest[j]) by {
                assert(leq(s[i + 1], s[j + 1]));
            }
        }
        assert(forall|k: int| 0 <= k < rest.len() && p(#[trigger] rest[k]) ==> leq(rest[k], x))
            by {
            assert(forall|k: int| 0 <= k < rest.len() ==> rest[k] == s[k + 1]);
        }
        lemma_insert_filter_top(leq, x, rest, p);
        assert(seq![s[0]] =~= Seq::<T>::empty().push(s[0]));
        assert((seq![s[0]] + insert_sorted(leq, x, rest)).filter(p) == seq![s[0]].filter(p) + (
        rest.filter(p).push(x)));
        assert(s =~= seq![s[0]] + rest);
        assert(s.filter(p) == seq![s[0]].filter(p) + rest.filter(p));
        assert(seq![s[0]].filter(p) + (rest.filter(p).push(x)) =~= (seq![s[0]].filter(p)
            + rest.filter(p)).push(x));
    }
}

/// A stable sort does not move the elements of a subsequence it already
/// considers ordered: if the kept subsequence of `t` is sorted, sorting all
/// of `t` leaves that subsequence exactly as it was.
proof fn lemma_sort_preserves_filter<T>(
    leq: spec_fn(T, T) -> bool,
    t: Seq<T>,
    p: spec_fn(T) -> bool,
)
    requires
        total(leq),
        transitive(leq),
        sorted_by(t.filter(p), leq),
    ensures
        sort_spec(leq, t).filter(p) == t.filter(p),
    decreases t.len(),
{
    reveal(Seq::filter);
    if t.len() == 0 {
        assert(sort_spec(leq, t).filter(p) =~= t.filter(p));
    } else {
        let x = t.last();
        let t1 = t.drop_last();
        assert(sorted_by(t1.filter(p), leq)) by {
            if p(x) {
                let f = t.filter(p);
                assert(f == t1.filter(p).push(x));
                assert forall|i: int, j: int|
                    0 <= i < j < t1.filter(p).len() implies leq(t1.filter(p)[i], t1.filter(p)[j]) by {
                    assert(leq(f[i], f[j]));
                }
            }
        }
        lemma_sort_preserves_filter(leq, t1, p);
        let st1 = sort_spec(leq, t1);
        lemma_sort_spec_sorted(leq, t1);
        lemma_sort_spec_multiset(leq, t1);
        if p(x) {
            assert(forall|k: int| 0 <= k < st1.len() && p(#[trigger] st1[k]) ==> leq(st1[k], x))
                by {
                assert forall|k: int| 0 <= k < st1.len() && p(#[trigger] st1[k]) implies leq(
                    st1[k],
                    x,
                ) by {
                    let v = st1[k];
                    assert(st1.contains(v));
                    assert(st1.to_multiset().count(v) > 0);
                    assert(t1.contains(v));
                    let u = choose|u: int| 0 <= u < t1.len() && t1[u] == v;
                    assert(t1.filter(p).contains(t1[u]));
                    let w = choose|w: int| 0 <= w < t1.filter(p).len() && t1.filter(p)[w] == v;
                    let f = t.filter(p);
                    assert(f == t1.filter(p).push(x));
                    assert(f[w] == v);
                    assert(f[f.len() - 1] == x);
                    assert(leq(f[w], f[f.len() - 1]));
                }
            }
            lemma_insert_filter_top(leq, x, st1, p);
            assert(t.filter(p) == t1.filter(p).push(x));
        } else {
            lemma_insert_filter_out(leq, x, st1, p);
            assert(t.filter(p) == t1.filter(p));
        }
    }
}

/// Two grade-sorted sequences whose grade classes coincide are equal.
proof fn lemma_sorted_classes_equal(a: Seq<Student>, b: Seq<Student>)
    requires
        sorted_by(a, grade_order()),
        sorted_by(b, grade_order()),
        forall|g: u32| #[trigger] grade_class(a, g) == grade_class(b, g),
    ensures
        a == b,
    decreases a.len(),
{
    reveal(Seq::filter);
    if a.len() == 0 && b.len() == 0 {
        assert(a =~= b);
    } else if a.len() == 0 {
        let g = b.last().grade;
        assert(b =~= b.drop_last().push(b.last()));
        assert(grade_class(b, g) == grade_class(b.drop_last(), g).push(b.last()));
        assert(grade_class(a, g).len() == 0);
        assert(false);
    } else if b.len() == 0 {
        let g = a.last().grade;
        assert(a =~= a.drop_last().push(a.last()));
        assert(grade_class(a, g) == grade_class(a.drop_last(), g).push(a.last()));
        assert(grade_class(b, g).len() == 0);
        assert(false);
    } else {
        let ma = a.last().grade;
        let mb = b.last().grade;
        assert(a =~= a.drop_last().push(a.last()));
        assert(b =~= b.drop_last().push(b.last()));
        assert(grade_class(a, ma) == grade_class(a.drop_last(), ma).push(a.last()));
        assert(grade_class(b, mb) == grade_class(b.drop_last(), mb).push(b.last()));
        assert(ma >= mb) by {
            let ca = grade_class(a, ma);
            assert(ca.len() > 0);
            assert(grade_class(b, ma).len() > 0);
            lemma_filter_membership(b, |e: Student| e.grade == ma, 0);
            let t = choose|t: int| 0 <= t < b.len() && b[t] == grade_class(b, ma)[0];
            assert(grade_class(b, ma)[0].grade == ma);
            if t < b.len() - 1 {
                assert((grade_order())(b[t], b[b.len() - 1]));
            }
        }
        assert(mb >= ma) by {
            let cb = grade_class(b, mb);
            assert(cb.len() > 0);
            assert(grade_class(a, mb).len() > 0);
            lemma_filter_membership(a, |e: Student| e.grade == mb, 0);
            let t = choose|t: int| 0 <= t < a.len() && a[t] == grade_class(a, mb)[0];
            assert(grade_class(a, mb)[0].grade == mb);
            if t < a.len() - 1 {
                assert((grade_order())(a[t], a[a.len() - 1]));
            }
        }
        assert(ma == mb);
        assert(a.last() == b.last()) by {
            let ca = grade_class(a, ma);
            let cb = grade_class(b, ma);
            assert(ca == cb);
            assert(ca.last() == a.last());
            assert(cb.last() == b.last());
        }
        let a1 = a.drop_last();
        let b1 = b.drop_last();
        assert(sorted_by(a1, grade_order())) by {
            assert forall|i: int, j: int| 0 <= i < j < a1.len() implies (grade_order())(
                a1[i],
                a1[j],
            ) by {
                assert((grade_order())(a[i], a[j]));
            }
        }
        assert(sorted_by(b1, grade_order())) by {
            assert forall|i: int, j: int| 0 <= i < j < b1.len() implies (grade_order())(
                b1[i],
                b1[j],
            ) by {
                assert((grade_order())(b[i], b[j]));
            }
        }
        assert(forall|g: u32| #[trigger] grade_class(a1, g) == grade_class(b1, g)) by {
            assert forall|g: u32| #[trigger] grade_class(a1, g) == grade_class(b1, g) by {
                if g == ma {
                    assert(grade_class(a, g) == grade_class(a1, g).push(a.last()));
                    assert(grade_class(b, g) == grade_class(b1, g).push(b.last()));
                    assert(grade_class(a1, g) =~= grade_class(a, g).drop_last());
                    assert(grade_class(b1, g) =~= grade_class(b, g).drop_last());
                } else {
                    assert(grade_class(a, g) == grade_class(a1, g));
                    assert(grade_class(b, g) == grade_class(b1, g));
                }
            }
        }
        lemma_sorted_classes_equal(a1, b1);
        assert(a =~= b);
    }
}

/// Sorting by grade: the composite stable order the library uses — first by
/// folded name, then by grade descending.
pub open spec fn sort_by_grade_spec(s: Seq<Student>) -> Seq<Student> {
    sort_spec(grade_order(), sort_spec(name_order(), s))
}

/// LAW (round trip): sorting by grade, then by name, then by grade again
/// yields exactly the order that sorting by grade alone yields — the grade
/// order with its name tie-break is a deterministic fixed point.
pub proof fn lemma_sort_round_trip(s: Seq<Student>)
    ensures
        sort_by_grade_spec(sort_spec(name_order(), sort_by_grade_spec(s))) == sort_by_grade_spec(
            s,
        ),
{
    lemma_grade_order_props();
    lemma_name_order_props();
    let ks = sort_spec(name_order(), s);
    let y = sort_spec(grade_order(), ks);
    // Sorting the already name-sorted K(y) by name again changes nothing.
    lemma_sort_spec_sorted(name_order(), y);
    lemma_sort_of_sorted_id(name_order(), sort_spec(name_order(), y));
    // Each grade class of y is exactly the corresponding class of ks.
    assert forall|g: u32| #[trigger] grade_class(y, g) == grade_class(ks, g) by {
        assert(sorted_by(grade_class(ks, g), grade_order())) by {
            let c = grade_class(ks, g);
            assert forall|i: int, j: int| 0 <= i < j < c.len() implies (grade_order())(
                c[i],
                c[j],
            ) by {
                assert(c[i].grade == g && c[j].grade == g);
            }
        }
        lemma_sort_preserves_filter(grade_order(), ks, |e: Student| e.grade == g);
    }
    // Those classes are name-sorted, so the name sort leaves them in place.
    assert forall|g: u32| #[trigger] grade_class(sort_spec(name_order(), y), g) == grade_class(
        y,
        g,
    ) by {
        lemma_sort_spec_sorted(name_order(), s);
        lemma_filter_sorted(ks, |e: Student| e.grade == g, name_order());
        assert(sorted_by(grade_class(y, g), name_order()));
        lemma_sort_preserves_filter(name_order(), y, |e: Student| e.grade == g);
    }
    let ky = sort_spec(name_order(), y);
    let z = sort_spec(grade_order(), ky);
    // And the final grade sort leaves every class in place again.
    assert forall|g: u32| #[trigger] grade_class(z, g) == grade_class(y, g) by {
        assert(sorted_by(grade_class(ky, g), grade_order())) by {
            let c = grade_class(ky, g);
            assert forall|i: int, j: int| 0 <= i < j < c.len() implies (grade_order())(
                c[i],
                c[j],
            ) by {
                assert(c[i].grade == g && c[j].grade == g);
            }
        }
        lemma_sort_preserves_filter(grade_order(), ky, |e: Student| e.grade == g);
    }
    // Both sides are grade-sorted with identical classes, hence equal.
    lemma_sort_spec_sorted(grade_order(), ky);
    lemma_sort_spec_sorted(grade_order(), ks);
    lemma_sorted_classes_equal(z, y);
}

} // verus!
