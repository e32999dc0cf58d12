//! Name-based filtering.
//!
//! Two forms of matching, both case-insensitive (they compare the lowercased
//! names' bytes, see [`crate::textnorm::match_key_of`]):
//!
//! * *query matching*: an entry matches a query set when any one query is a
//!   substring of its name — logical OR across queries;
//! * *exact matching*: an entry is in an entry set when some member's whole
//!   name equals its name.

use vstd::prelude::*;

use crate::student::Student;
use crate::textnorm::match_key;
use crate::textnorm::match_key_of;

verus! {

/// `needle` occurs contiguously somewhere inside `hay`.
pub open spec fn is_substring(needle: Seq<u8>, hay: Seq<u8>) -> bool {
    exists|i: int|
        0 <= i <= hay.len() - needle.len() && #[trigger] hay.subrange(i, i + needle.len() as int)
            == needle
}

/// The name matches some query of the set, case-insensitively, as a
/// substring.
pub open spec fn matches_any(queries: Seq<String>, name: Seq<char>) -> bool {
    exists|k: int|
        0 <= k < queries.len() && is_substring(
            match_key_of((#[trigger] queries[k])@),
            match_key_of(name),
        )
}

/// Some entry of `set` has exactly this name, case-insensitively.
pub open spec fn name_in(set: Seq<Student>, name: Seq<char>) -> bool {
    exists|j: int|
        0 <= j < set.len() && match_key_of((#[trigger] set[j]).name@) == match_key_of(name)
}

/// Whether `needle` occurs at position `i` of `hay`.
fn matches_at(hay: &Vec<u8>, needle: &Vec<u8>, i: usize) -> (r: bool)
    requires
        i + needle@.len() <= hay@.len(),
    ensures
        r == (hay@.subrange(i as int, i as int + needle@.len() as int) == needle@),
{
    let m = needle.len();
    let hay_len = hay.len();
    let mut j: usize = 0;
    while j < m
        invariant
            hay_len == hay@.len(),
            i + m <= hay@.len() <= usize::MAX,
            m == needle@.len(),
            j <= m,
            forall|t: int| 0 <= t < j ==> hay@[i + t] == needle@[t],
        decreases m - j,
    {
        if hay[i + j] != needle[j] {
            proof {
                assert(hay@.subrange(i as int, i as int + m as int)[j as int] != needle@[j as int]);
            }
            return false;
        }
        j += 1;
    }
    proof {
        assert(hay@.subrange(i as int, i as int + m as int) =~= needle@);
    }
    true
}

/// Naive substring search over byte strings.
fn contains_sub(hay: &Vec<u8>, needle: &Vec<u8>) -> (r: bool)
    ensures
        r == is_substring(needle@, hay@),
{
    let n = hay.len();
    let m = needle.len();
    if m > n {
        proof {
            assert(!is_substring(needle@, hay@));
        }
        return false;
    }
    if m == 0 {
        proof {
            assert(hay@.subrange(0, 0 + needle@.len() as int) =~= needle@);
        }
        return true;
    }
    let mut i: usize = 0;
    while i <= n - m
        invariant
            1 <= m <= n == hay@.len() <= usize::MAX,
            m == needle@.len(),
            i <= n - m + 1,
            forall|t: int|
                0 <= t < i ==> #[trigger] hay@.subrange(t, t + needle@.len() as int) != needle@,
        decreases n - m + 1 - i,
    {
        if matches_at(hay, needle, i) {
            return true;
        }
        i += 1;
    }
    false
}

/// Whether the entry's name matches any of the queries, case-insensitively,
/// as a substring.
pub fn student_matches(queries: &Vec<String>, s: &Student) -> (r: bool)
    ensures
        r == matches_any(queries@, s.name@),
{
    let nk = match_key(s.name.as_str());
    let n = queries.len();
    let mut k: usize = 0;
    while k < n
        invariant
            n == queries@.len(),
            k <= n,
            nk@ == match_key_of(s.name@),
            forall|t: int|
                0 <= t < k ==> !is_substring(
                    match_key_of((#[trigger] queries@[t])@),
                    match_key_of(s.name@),
                ),
        decreases n - k,
    {
        let qk = match_key(queries[k].as_str());
        if contains_sub(&nk, &qk) {
            return true;
        }
        k += 1;
    }
    false
}

/// Whether some entry of `set` carries exactly this name,
/// case-insensitively.
pub fn name_in_set(set: &Vec<Student>, name: &str) -> (r: bool)
    ensures
        r == name_in(set@, name@),
{
    let nk = match_key(name);
    let n = set.len();
    let mut j: usize = 0;
    while j < n
        invariant
            n == set@.len(),
            j <= n,
            nk@ == match_key_of(name@),
            forall|t: int|
                0 <= t < j ==> match_key_of((#[trigger] set@[t]).name@) != match_key_of(name@),
        decreases n - j,
    {
        let sk = match_key(set[j].name.as_str());
        if bytes_eq(&sk, &nk) {
            return true;
        }
        j += 1;
    }
    false
}

/// Byte-string equality.
fn bytes_eq(a: &Vec<u8>, b: &Vec<u8>) -> (r: bool)
    ensures
        r == (a@ == b@),
{
    if a.len() != b.len() {
        return false;
    }
    let n = a.len();
    let mut i: usize = 0;
    while i < n
        invariant
            n == a@.len() == b@.len(),
            i <= n,
            forall|t: int| 0 <= t < i ==> a@[t] == b@[t],
        decreases n - i,
    {
        if a[i] != b[i] {
            return false;
        }
        i += 1;
    }
    proof {
        assert(a@ =~= b@);
    }
    true
}

} // verus!
