//! Ordering of entries.
//!
//! Entries are sorted by grade (descending) or by folded name (ascending),
//! always *stably*. Both executable sorts are proved equal to one spec-level
//! stable insertion sort, [`sort_spec`], so every ordering question — in
//! particular the round-trip law proved in [`crate::laws`] — can be settled
//! about that one mathematical function.

use vstd::prelude::*;
use vstd::relations::sorted_by;
use vstd::seq_lib::lemma_multiset_commutative;

use crate::student::Student;
use crate::textnorm::sort_key;
use crate::textnorm::sort_key_of;

verus! {

broadcast use vstd::seq_lib::group_to_multiset_ensures;

// ---------------------------------------------------------------------------
// Lexicographic order on byte strings
// ---------------------------------------------------------------------------
/// Lexicographic "less or equal" on byte strings: the usual dictionary
/// order, with a proper prefix ordered before its extensions.
pub open spec fn lex_le(a: Seq<u8>, b: Seq<u8>) -> bool
    decreases a.len(),
{
    if a.len() == 0 {
        true
    } else if b.len() == 0 {
        false
    } else if a[0] < b[0] {
        true
    } else if a[0] > b[0] {
        false
    } else {
        lex_le(a.drop_first(), b.drop_first())
    }
}

/// Any two byte strings are lexicographically comparable.
pub proof fn lemma_lex_le_total(a: Seq<u8>, b: Seq<u8>)
    ensures
        lex_le(a, b) || lex_le(b, a),
    decreases a.len(),
{
    if a.len() == 0 || b.len() == 0 {
    } else if a[0] == b[0] {
        lemma_lex_le_total(a.drop_first(), b.drop_first());
    }
}

/// Lexicographic order is transitive.
pub proof fn lemma_lex_le_trans(a: Seq<u8>, b: Seq<u8>, c: Seq<u8>)
    requires
        lex_le(a, b),
        lex_le(b, c),
    ensures
        lex_le(a, c),
    decreases a.len(),
{
    if a.len() == 0 {
    } else {
        if b.len() == 0 {
        } else if c.len() == 0 {
        } else {
            if a[0] == b[0] && b[0] == c[0] {
                lemma_lex_le_trans(a.drop_first(), b.drop_first(), c.drop_first());
            }
        }
    }
}

/// Dropping an equal prefix does not change the lexicographic comparison.
proof fn lemma_lex_skip(a: Seq<u8>, b: Seq<u8>, i: int)
    requires
        0 <= i <= a.len(),
        i <= b.len(),
        forall|t: int| 0 <= t < i ==> a[t] == b[t],
    ensures
        lex_le(a, b) == lex_le(a.skip(i), b.skip(i)),
    decreases i,
{
    if i == 0 {
        assert(a.skip(0) =~= a);
        assert(b.skip(0) =~= b);
    } else {
        assert(a[0] == b[0]);
        assert(a.drop_first() =~= a.skip(1));
        assert(b.drop_first() =~= b.skip(1));
        lemma_lex_skip(a.skip(1), b.skip(1), i - 1);
        assert(a.skip(1).skip(i - 1) =~= a.skip(i));
        assert(b.skip(1).skip(i - 1) =~= b.skip(i));
    }
}

/// Compares two byte strings lexicographically.
fn bytes_le(a: &Vec<u8>, b: &Vec<u8>) -> (r: bool)
    ensures
        r == lex_le(a@, b@),
{
    let na = a.len();
    let nb = b.len();
    let n = if na < nb {
        na
    } else {
        nb
    };
    let mut i: usize = 0;
    while i < n
        invariant
            n <= a@.len(),
            n <= b@.len(),
            i <= n,
            forall|t: int| 0 <= t < i ==> a@[t] == b@[t],
        decreases n - i,
    {
        if a[i] < b[i] {
            proof {
                lemma_lex_skip(a@, b@, i as int);
                assert(a@.skip(i as int)[0] == a@[i as int]);
                assert(b@.skip(i as int)[0] == b@[i as int]);
            }
            return true;
        }
        if a[i] > b[i] {
            proof {
                lemma_lex_skip(a@, b@, i as int);
                assert(a@.skip(i as int)[0] == a@[i as int]);
                assert(b@.skip(i as int)[0] == b@[i as int]);
            }
            return false;
        }
        i += 1;
    }
    proof {
        lemma_lex_skip(a@, b@, n as int);
        if a@.len() <= b@.len() {
            assert(a@.skip(n as int) =~= Seq::<u8>::empty());
        } else {
            assert(b@.skip(n as int) =~= Seq::<u8>::empty());
            assert(a@.skip(n as int).len() > 0);
        }
    }
    na <= nb
}

// ---------------------------------------------------------------------------
// The three entry orders
// ---------------------------------------------------------------------------
/// Grade order, descending: `a` comes no later than `b` when `a`'s grade is
/// at least `b`'s.
pub open spec fn grade_ge(a: Student, b: Student) -> bool {
    a.grade >= b.grade
}

/// Name order, ascending on the folded (lowercased, de-accented) name key.
pub open spec fn name_le(a: Student, b: Student) -> bool {
    lex_le(sort_key_of(a.name@), sort_key_of(b.name@))
}

/// The grade order as a first-class function, for [`sort_spec`].
pub open spec fn grade_order() -> spec_fn(Student, Student) -> bool {
    |a: Student, b: Student| grade_ge(a, b)
}

/// The name order as a first-class function, for [`sort_spec`].
pub open spec fn name_order() -> spec_fn(Student, Student) -> bool {
    |a: Student, b: Student| name_le(a, b)
}

/// Ascending order on plain grades, for the median's sorted copy.
pub open spec fn u32_order() -> spec_fn(u32, u32) -> bool {
    |a: u32, b: u32| a <= b
}

/// `leq` relates every pair, one way or the other.
pub open spec fn total<T>(leq: spec_fn(T, T) -> bool) -> bool {
    forall|x: T, y: T| #[trigger] leq(x, y) || #[trigger] leq(y, x)
}

/// `leq` is transitive.
pub open spec fn transitive<T>(leq: spec_fn(T, T) -> bool) -> bool {
    forall|x: T, y: T, z: T| #[trigger] leq(x, y) && #[trigger] leq(y, z) ==> leq(x, z)
}

/// The grade order is a total preorder.
pub proof fn lemma_grade_order_props()
    ensures
        total(grade_order()),
        transitive(grade_order()),
{
}

/// The name order is a total preorder.
pub proof fn lemma_name_order_props()
    ensures
        total(name_order()),
        transitive(name_order()),
{
    assert forall|x: Student, y: Student| #[trigger] (name_order())(x, y) || #[trigger] (
    name_order())(y, x) by {
        lemma_lex_le_total(sort_key_of(x.name@), sort_key_of(y.name@));
    }
    assert forall|x: Student, y: Student, z: Student|
        #[trigger] (name_order())(x, y) && #[trigger] (name_order())(y, z) implies (name_order())(
        x,
        z,
    ) by {
        lemma_lex_le_trans(sort_key_of(x.name@), sort_key_of(y.name@), sort_key_of(z.name@));
    }
}

// ---------------------------------------------------------------------------
// Stable insertion sort, at the spec level
// ---------------------------------------------------------------------------
/// Places `x` before the first element strictly greater than it, and so
/// *after* every element `leq`-below or tied with it: inserting the latest
/// element this way keeps the sort stable.
pub open spec fn insert_sorted<T>(leq: spec_fn(T, T) -> bool, x: T, s: Seq<T>) -> Seq<T>
    decreases s.len(),
{
    if s.len() == 0 {
        seq![x]
    } else if !leq(s[0], x) {
        seq![x] + s
    } else {
        seq![s[0]] + insert_sorted(leq, x, s.drop_first())
    }
}

/// Stable insertion sort: elements are inserted left to right, so of two
/// tied elements the earlier one stays first.
pub open spec fn sort_spec<T>(leq: spec_fn(T, T) -> bool, s: Seq<T>) -> Seq<T>
    decreases s.len(),
{
    if s.len() == 0 {
        Seq::<T>::empty()
    } else {
        insert_sorted(leq, s.last(), sort_spec(leq, s.drop_last()))
    }
}

/// Inserting adds exactly the new element: the contents are the old
/// contents plus `x`.
pub proof fn lemma_insert_sorted_multiset<T>(leq: spec_fn(T, T) -> bool, x: T, s: Seq<T>)
    ensures
        insert_sorted(leq, x, s).len() == s.len() + 1,
        insert_sorted(leq, x, s).to_multiset() == s.to_multiset().insert(x),
    decreases s.len(),
{
    if s.len() == 0 {
        assert(seq![x] =~= Seq::<T>::empty().push(x));
        assert(insert_sorted(leq, x, s).to_multiset() =~= s.to_multiset().insert(x));
    } else if !leq(s[0], x) {
        lemma_multiset_commutative(seq![x], s);
        assert(seq![x] =~= Seq::<T>::empty().push(x));
        assert((seq![x] + s).to_multiset() =~= s.to_multiset().insert(x));
    } else {
        lemma_insert_sorted_multiset(leq, x, s.drop_first());
        lemma_multiset_commutative(seq![s[0]], insert_sorted(leq, x, s.drop_first()));
        lemma_multiset_commutative(seq![s[0]], s.drop_first());
        assert(s =~= seq![s[0]] + s.drop_first());
        assert(seq![s[0]] =~= Seq::<T>::empty().push(s[0]));
        assert((seq![s[0]] + insert_sorted(leq, x, s.drop_first())).to_multiset()
            =~= s.to_multiset().insert(x));
    }
}

/// Sorting permutes: the sorted sequence holds exactly the old contents.
pub proof fn lemma_sort_spec_multiset<T>(leq: spec_fn(T, T) -> bool, s: Seq<T>)
    ensures
        sort_spec(leq, s).len() == s.len(),
        sort_spec(leq, s).to_multiset() == s.to_multiset(),
    decreases s.len(),
{
    if s.len() == 0 {
        assert(sort_spec(leq, s).to_multiset() =~= s.to_multiset());
    } else {
        lemma_sort_spec_multiset(leq, s.drop_last());
        lemma_insert_sorted_multiset(leq, s.last(), sort_spec(leq, s.drop_last()));
        assert(s =~= s.drop_last().push(s.last()));
        assert(s.drop_last().push(s.last()).to_multiset() == s.drop_last().to_multiset().insert(
            s.last(),
        ));
    }
}

/// Everything in `insert_sorted(leq, x, s)` is `x` or an element of `s`.
proof fn lemma_insert_sorted_membership<T>(leq: spec_fn(T, T) -> bool, x: T, s: Seq<T>, k: int)
    requires
        0 <= k < insert_sorted(leq, x, s).len(),
    ensures
        insert_sorted(leq, x, s)[k] == x || s.contains(insert_sorted(leq, x, s)[k]),
{
    broadcast use vstd::multiset::group_multiset_axioms;

    lemma_insert_sorted_multiset(leq, x, s);
    let v = insert_sorted(leq, x, s)[k];
    assert(insert_sorted(leq, x, s).contains(v));
    assert(insert_sorted(leq, x, s).to_multiset().count(v) > 0);
    if v != x {
        assert(s.to_multiset().count(v) > 0);
    }
}

/// Inserting into a sorted sequence keeps it sorted.
pub proof fn lemma_insert_sorted_sorted<T>(leq: spec_fn(T, T) -> bool, x: T, s: Seq<T>)
    requires
        sorted_by(s, leq),
        total(leq),
        transitive(leq),
    ensures
        sorted_by(insert_sorted(leq, x, s), leq),
    decreases s.len(),
{
    if s.len() == 0 {
    } else if !leq(s[0], x) {
        let out = seq![x] + s;
        assert(leq(x, s[0]));
        assert forall|i: int, j: int| 0 <= i < j < out.len() implies leq(out[i], out[j]) by {
            if i == 0 {
                if j > 1 {
                    assert(leq(s[0], s[j - 1]));
                }
            } else {
                assert(leq(s[i - 1], s[j - 1]));
            }
        }
    } else {
        let rest = s.drop_first();
        assert(sorted_by(rest, leq)) by {
            assert forall|i: int, j: int| 0 <= i < j < rest.len() implies leq(rest[i], rest[j]) by {
                assert(leq(s[i + 1], s[j + 1]));
            }
        }
        lemma_insert_sorted_sorted(leq, x, rest);
        let ins = insert_sorted(leq, x, rest);
        let out = seq![s[0]] + ins;
        assert forall|i: int, j: int| 0 <= i < j < out.len() implies leq(out[i], out[j]) by {
            if i == 0 {
                let v = ins[j - 1];
                lemma_insert_sorted_membership(leq, x, rest, j - 1);
                if v == x {
                    assert(leq(s[0], x));
                } else {
                    let t = choose|t: int| 0 <= t < rest.len() && rest[t] == v;
                    assert(leq(s[0], s[t + 1]));
                }
            } else {
                assert(leq(ins[i - 1], ins[j - 1]));
            }
        }
    }
}

/// The sorted sequence is sorted.
pub proof fn lemma_sort_spec_sorted<T>(leq: spec_fn(T, T) -> bool, s: Seq<T>)
    requires
        total(leq),
        transitive(leq),
    ensures
        sorted_by(sort_spec(leq, s), leq),
    decreases s.len(),
{
    if s.len() == 0 {
    } else {
        lemma_sort_spec_sorted(leq, s.drop_last());
        lemma_insert_sorted_sorted(leq, s.last(), sort_spec(leq, s.drop_last()));
    }
}

/// Where the insertion lands: if every element before `j` is `leq` the new
/// element and the element at `j` (if any) is not, the insertion splits the
/// sequence exactly at `j`.
pub proof fn lemma_insert_sorted_at<T>(leq: spec_fn(T, T) -> bool, x: T, s: Seq<T>, j: int)
    requires
        0 <= j <= s.len(),
        forall|t: int| 0 <= t < j ==> leq(#[trigger] s[t], x),
        j == s.len() || !leq(s[j], x),
    ensures
        insert_sorted(leq, x, s) == s.take(j) + seq![x] + s.skip(j),
    decreases s.len(),
{
    if j == 0 {
        if s.len() == 0 {
            assert(insert_sorted(leq, x, s) =~= s.take(0) + seq![x] + s.skip(0));
        } else {
            assert(!leq(s[0], x));
            assert(insert_sorted(leq, x, s) =~= s.take(0) + seq![x] + s.skip(0));
        }
    } else {
        assert(leq(s[0], x));
        let rest = s.drop_first();
        lemma_insert_sorted_at(leq, x, rest, j - 1);
        assert(insert_sorted(leq, x, s) == seq![s[0]] + (rest.take(j - 1) + seq![x] + rest.skip(
            j - 1,
        )));
        assert(seq![s[0]] + (rest.take(j - 1) + seq![x] + rest.skip(j - 1)) =~= s.take(j) + seq![x]
            + s.skip(j));
    }
}

/// A stable sort leaves an already sorted sequence untouched.
pub proof fn lemma_sort_of_sorted_id<T>(leq: spec_fn(T, T) -> bool, s: Seq<T>)
    requires
        sorted_by(s, leq),
    ensures
        sort_spec(leq, s) == s,
    decreases s.len(),
{
    if s.len() == 0 {
        assert(sort_spec(leq, s) =~= s);
    } else {
        let dl = s.drop_last();
        assert(sorted_by(dl, leq)) by {
            assert forall|i: int, j: int| 0 <= i < j < dl.len() implies leq(dl[i], dl[j]) by {
                assert(leq(s[i], s[j]));
            }
        }
        lemma_sort_of_sorted_id(leq, dl);
        assert(forall|t: int| 0 <= t < dl.len() ==> leq(#[trigger] dl[t], s.last()));
        lemma_insert_sorted_at(leq, s.last(), dl, dl.len() as int);
        assert(dl.take(dl.len() as int) + seq![s.last()] + dl.skip(dl.len() as int) =~= s);
    }
}


// ---------------------------------------------------------------------------
// Executable sorts
// ---------------------------------------------------------------------------
/// Removing the element at `i` splits the sequence around it.
proof fn lemma_remove_split<T>(s: Seq<T>, i: int)
    requires
        0 <= i < s.len(),
    ensures
        s.remove(i) == s.take(i) + s.skip(i + 1),
{
    assert(s.remove(i) =~= s.take(i) + s.skip(i + 1));
}

/// A one-element sequence is already sorted.
proof fn lemma_sort_spec_singleton<T>(leq: spec_fn(T, T) -> bool, s: Seq<T>)
    requires
        s.len() == 1,
    ensures
        sort_spec(leq, s) == s,
{
    assert(s.drop_last() =~= Seq::<T>::empty());
    assert(sort_spec(leq, s.drop_last()) =~= Seq::<T>::empty());
    assert(insert_sorted(leq, s.last(), Seq::<T>::empty()) =~= s);
}

/// Sorting one more element means inserting it into the sorted prefix.
proof fn lemma_sort_spec_take_succ<T>(leq: spec_fn(T, T) -> bool, s: Seq<T>, i: int)
    requires
        0 <= i < s.len(),
    ensures
        sort_spec(leq, s.take(i + 1)) == insert_sorted(leq, s[i], sort_spec(leq, s.take(i))),
{
    assert(s.take(i + 1).drop_last() =~= s.take(i));
    assert(s.take(i + 1).last() == s[i]);
    assert(s.take(i + 1).len() == i + 1);
}

/// Compares two entries in the name order.
fn name_le_exec(a: &Student, b: &Student) -> (r: bool)
    ensures
        r == name_le(*a, *b),
{
    let ka = sort_key(a.name.as_str());
    let kb = sort_key(b.name.as_str());
    bytes_le(&ka, &kb)
}

/// Stable in-place insertion sort by grade, descending.
pub fn sort_students_by_grade(v: &mut Vec<Student>)
    ensures
        final(v)@ == sort_spec(grade_order(), old(v)@),
{
    let ghost orig = old(v)@;
    let ghost leq = grade_order();
    let n = v.len();
    if n == 0 {
        proof {
            assert(sort_spec(leq, orig) =~= orig);
        }
        return ;
    }
    let mut i: usize = 1;
    proof {
        lemma_sort_spec_singleton(leq, orig.take(1));
        assert(v@.take(1) =~= orig.take(1));
        assert(v@.skip(1) =~= orig.skip(1));
    }
    while i < n
        invariant
            leq == grade_order(),
            v@.len() == n == orig.len(),
            1 <= i <= n,
            v@.take(i as int) == sort_spec(leq, orig.take(i as int)),
            v@.skip(i as int) == orig.skip(i as int),
        decreases n - i,
    {
        let ghost before = v@;
        let ghost prefix = sort_spec(leq, orig.take(i as int));
        proof {
            lemma_sort_spec_multiset(leq, orig.take(i as int));
            assert(prefix.len() == i);
            assert(before[i as int] == before.skip(i as int)[0]);
            assert(before[i as int] == orig[i as int]);
        }
        let x = v.remove(i);
        proof {
            lemma_remove_split(before, i as int);
            assert(before.skip(i as int + 1) =~= orig.skip(i as int + 1)) by {
                assert forall|u: int|
                    0 <= u < before.len() - i - 1 implies #[trigger] before.skip(i as int + 1)[u]
                    == orig.skip(i as int + 1)[u] by {
                    assert(before.skip(i as int)[u + 1] == orig.skip(i as int)[u + 1]);
                }
            }
            assert(before.take(i as int) =~= prefix);
            assert(v@ == prefix + orig.skip(i as int + 1));
            assert(forall|t: int| 0 <= t < i ==> v@[t] == prefix[t]);
        }
        let mut j: usize = 0;
        while j < i && v[j].grade >= x.grade
            invariant
                leq == grade_order(),
                j <= i,
                i <= v@.len(),
                forall|t: int| 0 <= t < j ==> leq(#[trigger] v@[t], x),
            decreases i - j,
        {
            proof {
                assert(leq(v@[j as int], x));
            }
            j += 1;
        }
        let ghost jj = j as int;
        proof {
            assert(forall|t: int| 0 <= t < jj ==> leq(#[trigger] prefix[t], x));
            assert(jj == i || !leq(prefix[jj], x));
            lemma_insert_sorted_at(leq, x, prefix, jj);
        }
        v.insert(j, x);
        proof {
            assert(v@ =~= prefix.take(jj) + seq![x] + prefix.skip(jj) + orig.skip(i as int + 1));
            assert(v@.take(i as int + 1) =~= prefix.take(jj) + seq![x] + prefix.skip(jj));
            lemma_sort_spec_take_succ(leq, orig, i as int);
            assert(orig.take(i as int + 1).take(i as int) =~= orig.take(i as int));
            assert(v@.take(i as int + 1) == sort_spec(leq, orig.take(i as int + 1)));
            assert(v@.skip(i as int + 1) =~= orig.skip(i as int + 1));
        }
        i += 1;
    }
    proof {
        assert(orig.take(n as int) =~= orig);
        assert(v@.take(n as int) =~= v@);
    }
}

/// Stable in-place insertion sort by folded name, ascending.
pub fn sort_students_by_name(v: &mut Vec<Student>)
    ensures
        final(v)@ == sort_spec(name_order(), old(v)@),
{
    let ghost orig = old(v)@;
    let ghost leq = name_order();
    let n = v.len();
    if n == 0 {
        proof {
            assert(sort_spec(leq, orig) =~= orig);
        }
        return ;
    }
    let mut i: usize = 1;
    proof {
        lemma_sort_spec_singleton(leq, orig.take(1));
        assert(v@.take(1) =~= orig.take(1));
        assert(v@.skip(1) =~= orig.skip(1));
    }
    while i < n
        invariant
            leq == name_order(),
            v@.len() == n == orig.len(),
            1 <= i <= n,
            v@.take(i as int) == sort_spec(leq, orig.take(i as int)),
            v@.skip(i as int) == orig.skip(i as int),
        decreases n - i,
    {
        let ghost before = v@;
        let ghost prefix = sort_spec(leq, orig.take(i as int));
        proof {
            lemma_sort_spec_multiset(leq, orig.take(i as int));
            assert(prefix.len() == i);
            assert(before[i as int] == before.skip(i as int)[0]);
            assert(before[i as int] == orig[i as int]);
        }
        let x = v.remove(i);
        proof {
            lemma_remove_split(before, i as int);
            assert(before.skip(i as int + 1) =~= orig.skip(i as int + 1)) by {
                assert forall|u: int|
                    0 <= u < before.len() - i - 1 implies #[trigger] before.skip(i as int + 1)[u]
                    == orig.skip(i as int + 1)[u] by {
                    assert(before.skip(i as int)[u + 1] == orig.skip(i as int)[u + 1]);
                }
            }
            assert(before.take(i as int) =~= prefix);
            assert(v@ == prefix + orig.skip(i as int + 1));
            assert(forall|t: int| 0 <= t < i ==> v@[t] == prefix[t]);
        }
        let mut j: usize = 0;
        while j < i && name_le_exec(&v[j], &x)
            invariant
                leq == name_order(),
                j <= i,
                i <= v@.len(),
                forall|t: int| 0 <= t < j ==> leq(#[trigger] v@[t], x),
            decreases i - j,
        {
            proof {
                assert(leq(v@[j as int], x));
            }
            j += 1;
        }
        let ghost jj = j as int;
        proof {
            assert(forall|t: int| 0 <= t < jj ==> leq(#[trigger] prefix[t], x));
            assert(jj == i || !leq(prefix[jj], x));
            lemma_insert_sorted_at(leq, x, prefix, jj);
        }
        v.insert(j, x);
        proof {
            assert(v@ =~= prefix.take(jj) + seq![x] + prefix.skip(jj) + orig.skip(i as int + 1));
            assert(v@.take(i as int + 1) =~= prefix.take(jj) + seq![x] + prefix.skip(jj));
            lemma_sort_spec_take_succ(leq, orig, i as int);
            assert(orig.take(i as int + 1).take(i as int) =~= orig.take(i as int));
            assert(v@.take(i as int + 1) == sort_spec(leq, orig.take(i as int + 1)));
            assert(v@.skip(i as int + 1) =~= orig.skip(i as int + 1));
        }
        i += 1;
    }
    proof {
        assert(orig.take(n as int) =~= orig);
        assert(v@.take(n as int) =~= v@);
    }
}

/// Stable in-place insertion sort of plain grades, ascending.
pub fn sort_grades(v: &mut Vec<u32>)
    ensures
        final(v)@ == sort_spec(u32_order(), old(v)@),
{
    let ghost orig = old(v)@;
    let ghost leq = u32_order();
    let n = v.len();
    if n == 0 {
        proof {
            assert(sort_spec(leq, orig) =~= orig);
        }
        return ;
    }
    let mut i: usize = 1;
    proof {
        lemma_sort_spec_singleton(leq, orig.take(1));
        assert(v@.take(1) =~= orig.take(1));
        assert(v@.skip(1) =~= orig.skip(1));
    }
    while i < n
        invariant
            leq == u32_order(),
            v@.len() == n == orig.len(),
            1 <= i <= n,
            v@.take(i as int) == sort_spec(leq, orig.take(i as int)),
            v@.skip(i as int) == orig.skip(i as int),
        decreases n - i,
    {
        let ghost before = v@;
        let ghost prefix = sort_spec(leq, orig.take(i as int));
        proof {
            lemma_sort_spec_multiset(leq, orig.take(i as int));
            assert(prefix.len() == i);
            assert(before[i as int] == before.skip(i as int)[0]);
            assert(before[i as int] == orig[i as int]);
        }
        let x = v.remove(i);
        proof {
            lemma_remove_split(before, i as int);
            assert(before.skip(i as int + 1) =~= orig.skip(i as int + 1)) by {
                assert forall|u: int|
                    0 <= u < before.len() - i - 1 implies #[trigger] before.skip(i as int + 1)[u]
                    == orig.skip(i as int + 1)[u] by {
                    assert(before.skip(i as int)[u + 1] == orig.skip(i as int)[u + 1]);
                }
            }
            assert(before.take(i as int) =~= prefix);
            assert(v@ == prefix + orig.skip(i as int + 1));
            assert(forall|t: int| 0 <= t < i ==> v@[t] == prefix[t]);
        }
        let mut j: usize = 0;
        while j < i && v[j] <= x
            invariant
                leq == u32_order(),
                j <= i,
                i <= v@.len(),
                forall|t: int| 0 <= t < j ==> leq(#[trigger] v@[t], x),
            decreases i - j,
        {
            proof {
                assert(leq(v@[j as int], x));
            }
            j += 1;
        }
        let ghost jj = j as int;
        proof {
            assert(forall|t: int| 0 <= t < jj ==> leq(#[trigger] prefix[t], x));
            assert(jj == i || !leq(prefix[jj], x));
            lemma_insert_sorted_at(leq, x, prefix, jj);
        }
        v.insert(j, x);
        proof {
            assert(v@ =~= prefix.take(jj) + seq![x] + prefix.skip(jj) + orig.skip(i as int + 1));
            assert(v@.take(i as int + 1) =~= prefix.take(jj) + seq![x] + prefix.skip(jj));
            lemma_sort_spec_take_succ(leq, orig, i as int);
            assert(orig.take(i as int + 1).take(i as int) =~= orig.take(i as int));
            assert(v@.take(i as int + 1) == sort_spec(leq, orig.take(i as int + 1)));
            assert(v@.skip(i as int + 1) =~= orig.skip(i as int + 1));
        }
        i += 1;
    }
    proof {
        assert(orig.take(n as int) =~= orig);
        assert(v@.take(n as int) =~= v@);
    }
}

} // verus!
