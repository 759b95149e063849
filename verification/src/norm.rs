//! Normalization of input text. Every text and query is reduced to Unicode
//! canonical decomposed form (NFD) and then case-folded to lower case before
//! grams are taken, so that equivalent encodings produce identical grams.

use unicode_normalization::UnicodeNormalization;
use vstd::prelude::*;

verus! {

/// The codepoint sequence a string reduces to: its canonical decomposition
/// (NFD), case-folded to lower case. Computed only by `nfd_fold_chars`.
pub uninterp spec fn nfd_fold(s: Seq<char>) -> Seq<char>;

/// Relies on unicode_normalization's `nfd`, canonical decomposition per
/// Unicode Standard Annex #15, composed with `char::to_lowercase` on each
/// resulting codepoint. Both depend on the codepoint sequence alone. UAX #15
/// states that normalization is idempotent, and the lowercase mapping of an
/// already lowercased decomposition is itself, so the composite is
/// idempotent; an empty input decomposes to an empty output.
#[verifier::external_body]
pub(crate) fn nfd_fold_chars(s: &str) -> (r: Vec<char>)
    ensures
        r@ == nfd_fold(s@),
        nfd_fold(r@) == r@,
        s@.len() == 0 ==> r@.len() == 0,
{
    s.nfd().flat_map(|c| c.to_lowercase()).collect()
}

/// Relies on `String: FromIterator<char>`: collecting chars builds the string
/// of exactly those chars, in order.
#[verifier::external_body]
pub(crate) fn string_of_chars(v: &Vec<char>) -> (r: String)
    ensures
        r@ == v@,
{
    v.iter().collect()
}

/// Reduces a string to its normal form: canonical decomposition (NFD), then
/// case folding to lower case. Reducing an already reduced string changes
/// nothing.
pub fn normalize_case_fold(s: &str) -> (r: String)
    ensures
        r@ == nfd_fold(s@),
        nfd_fold(r@) == r@,
{
    let cs = nfd_fold_chars(s);
    string_of_chars(&cs)
}

} // verus!
