//! Text folding for name comparison and matching.
//!
//! Sorting and filtering compare names case-insensitively, and sorting also
//! folds accents to base Latin letters ("á" orders as "a"). The folding
//! itself comes from outside code (`str::to_lowercase` and
//! `unidecode::unidecode`); each outside call sits behind a small trusted
//! wrapper whose result is named by an uninterpreted spec function, so every
//! contract downstream is exact relative to those names. Everything that
//! compares or matches the folded text is verified.

use vstd::prelude::*;

verus! {

/// The character sequence that `str::to_lowercase` returns for `s`.
pub uninterp spec fn lower_of(s: Seq<char>) -> Seq<char>;

/// The character sequence that `unidecode::unidecode` returns for `s`.
pub uninterp spec fn deaccent_of(s: Seq<char>) -> Seq<char>;

/// The byte sequence that `String::into_bytes` returns for a string whose
/// characters are `s`: its UTF-8 encoding.
pub uninterp spec fn utf8_of(s: Seq<char>) -> Seq<u8>;

/// Relies on `str::to_lowercase`: the Unicode lowercase conversion of the
/// string, a function of its characters alone.
#[verifier::external_body]
fn to_lower(s: &str) -> (r: String)
    ensures
        r@ == lower_of(s@),
{
    s.to_lowercase()
}

/// Relies on `unidecode::unidecode`: the ASCII transliteration of the
/// string, a function of its characters alone (every character is mapped
/// through a fixed table).
#[verifier::external_body]
fn deaccent(s: &str) -> (r: String)
    ensures
        r@ == deaccent_of(s@),
{
    unidecode::unidecode(s)
}

/// Relies on `String::into_bytes`: the UTF-8 bytes of the string, a
/// function of its characters alone.
#[verifier::external_body]
fn into_utf8(s: String) -> (r: Vec<u8>)
    ensures
        r@ == utf8_of(s@),
{
    s.into_bytes()
}

/// The byte key on which entries are ordered: accent folding applied to
/// the lowercased name, encoded as UTF-8.
pub open spec fn sort_key_of(s: Seq<char>) -> Seq<u8> {
    utf8_of(deaccent_of(lower_of(s)))
}

/// The byte key on which names are matched: the lowercased name as UTF-8.
pub open spec fn match_key_of(s: Seq<char>) -> Seq<u8> {
    utf8_of(lower_of(s))
}

/// Computes the ordering key of a name.
pub fn sort_key(name: &str) -> (r: Vec<u8>)
    ensures
        r@ == sort_key_of(name@),
{
    let lowered = to_lower(name);
    let folded = deaccent(lowered.as_str());
    into_utf8(folded)
}

/// Computes the matching key of a name.
pub fn match_key(name: &str) -> (r: Vec<u8>)
    ensures
        r@ == match_key_of(name@),
{
    let lowered = to_lower(name);
    into_utf8(lowered)
}

} // verus!
