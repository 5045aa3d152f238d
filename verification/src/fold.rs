//! Case folding and normalization of names and queries.
use crate::natural;
use crate::natural::natural_cmp_folded;
use crate::text;
use crate::text::lower_ascii;
use core::cmp::Ordering;
use unicode_normalization::UnicodeNormalization;
use vstd::prelude::*;

verus! {

/// What ICU's full case folding makes of a text.
pub uninterp spec fn full_case_fold(text: Seq<char>) -> Seq<char>;

/// The canonical composition (NFC) of a text.
pub uninterp spec fn canonical_composition(text: Seq<char>) -> Seq<char>;

/// The canonical decomposition (NFD) of a text.
pub uninterp spec fn canonical_decomposition(text: Seq<char>) -> Seq<char>;

/// Whether a character is a combining mark.
pub uninterp spec fn combining_mark(c: char) -> bool;

/// `icu_casemap`'s `CaseMapper::fold_string` on the whole text.
#[verifier::external_body]
fn case_folded(text: &str) -> (folded: String)
    ensures
        folded@ == full_case_fold(text@),
{
    icu_casemap::CaseMapper::new().fold_string(text).into_owned()
}

/// `unicode_normalization`'s `nfc`, collected.
#[verifier::external_body]
fn composed(text: &str) -> (normal: String)
    ensures
        normal@ == canonical_composition(text@),
{
    text.nfc().collect()
}

/// `unicode_normalization`'s `nfd`, collected.
#[verifier::external_body]
fn decomposed(text: &str) -> (normal: String)
    ensures
        normal@ == canonical_decomposition(text@),
{
    text.nfd().collect()
}

/// `unicode_normalization::char::is_combining_mark`.
#[verifier::external_body]
pub(crate) fn is_combining_mark(c: char) -> (mark: bool)
    ensures
        mark == combining_mark(c),
{
    unicode_normalization::char::is_combining_mark(c)
}

/// The characters that are no combining marks.
pub open spec fn without_marks(text: Seq<char>) -> Seq<char>
    decreases text.len(),
{
    if text.len() == 0 {
        text
    } else if combining_mark(text.last()) {
        without_marks(text.drop_last())
    } else {
        without_marks(text.drop_last()).push(text.last())
    }
}

/// A text without its diacritics.
pub open spec fn bare(text: Seq<char>) -> Seq<char> {
    without_marks(canonical_decomposition(text))
}

/// A text as it is sorted: composed and without case.
pub open spec fn folded(text: Seq<char>) -> Seq<char> {
    if text::ascii(text) {
        text::lower(text)
    } else {
        full_case_fold(canonical_composition(text))
    }
}

/// A text as it is searched: without diacritics and without case.
pub open spec fn search_folded(text: Seq<char>) -> Seq<char> {
    if text::ascii(text) {
        text::lower(text)
    } else {
        folded(bare(text))
    }
}

pub fn fold(s: &str) -> (result: String)
    ensures
        result@ == folded(s@),
{
    if s.is_ascii() {
        return lower_ascii(s);
    }
    case_folded(composed(s).as_str())
}

/// The canonical composition of a text.
pub fn nfc(s: &str) -> (result: String)
    ensures
        result@ == canonical_composition(s@),
{
    composed(s)
}

/// The text without its diacritics.
pub fn strip_diacritics(s: &str) -> (result: String)
    ensures
        result@ == bare(s@),
{
    let parts = decomposed(s);
    let mut result = String::new();
    for c in iter: parts.as_str().chars()
        invariant
            iter.seq() == parts@,
            result@ == without_marks(parts@.take(iter.index() as int)),
    {
        let ghost part = parts@.take(iter.index() + 1);
        assert(part.drop_last() =~= parts@.take(iter.index() as int));
        assert(part.last() == c);
        if !is_combining_mark(c) {
            result.push(c);
        }
    }
    assert(parts@.take(parts@.len() as int) =~= parts@);
    result
}

/// Search-only folding is broader than sorting: it ignores diacritics.
pub fn fold_search(s: &str) -> (result: String)
    ensures
        result@ == search_folded(s@),
{
    if s.is_ascii() {
        return lower_ascii(s);
    }
    fold(strip_diacritics(s).as_str())
}

/// Human numeric ordering of texts without regard to case.
pub fn natural_cmp(a: &str, b: &str) -> (order: Ordering)
    ensures
        order == natural::natural_order(text::bytes_of(folded(a@)), text::bytes_of(folded(b@))),
{
    let (left, right) = (fold(a), fold(b));
    natural_cmp_folded(left.as_str(), right.as_str())
}

} // verus!
