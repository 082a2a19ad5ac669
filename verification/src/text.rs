use vstd::prelude::*;
use unicode_normalization::UnicodeNormalization;

verus! {

/// The Unicode case fold of a string, character by character, as unicase
/// computes it. Two names are the same name exactly when their folds agree.
pub uninterp spec fn fold_of(s: Seq<char>) -> Seq<char>;

/// Relies on unicase's `UniCase` comparison: two strings compare equal exactly
/// when their Unicode case folds are the same character sequence, and the fold
/// of a string depends on its characters alone.
#[verifier::external_body]
pub(crate) fn unicase_eq(a: &str, b: &str) -> (r: bool)
    ensures
        r == (fold_of(a@) == fold_of(b@)),
{
    unicase::UniCase::new(a) == unicase::UniCase::new(b)
}

/// The canonical composed form (NFC) of a string.
pub uninterp spec fn nfc_of(s: Seq<char>) -> Seq<char>;

/// Relies on unicode_normalization's `nfc` iterator: the result is the
/// canonical composed form, a function of the characters alone; it is empty
/// exactly when the input is empty, since normalization never drops a
/// character without recomposing it into another; and normalization is
/// idempotent, so the result is itself in canonical composed form.
#[verifier::external_body]
pub(crate) fn normalize_nfc(s: &str) -> (r: String)
    ensures
        r@ == nfc_of(s@),
        (r@.len() == 0) == (s@.len() == 0),
        nfc_of(r@) == r@,
{
    s.nfc().collect()
}

/// Relies on std's `String::push`: appends one character.
pub assume_specification[ String::push ](s: &mut String, c: char)
    ensures
        final(s)@ == old(s)@.push(c),
;

/// Relies on unicase's `UniCase::to_folded_case`: the case fold itself,
/// computed character by character through unicase's fold table, in which
/// `'+'` folds to itself — so the fold of `s` with `'+'` appended is the
/// result with `'+'` appended.
#[verifier::external_body]
pub(crate) fn folded_case(s: &str) -> (r: String)
    ensures
        r@ == fold_of(s@),
        fold_of(s@.push('+')) == r@.push('+'),
{
    unicase::UniCase::new(s).to_folded_case()
}

/// Relies on std's `str` equality: two slices are equal exactly when their
/// characters are.
pub assume_specification[ <str as PartialEq>::eq ](a: &str, b: &str) -> (r: bool)
    ensures
        r == (a@ == b@),
;

/// Relies on std's `String::is_empty`: true exactly for the empty string.
pub assume_specification[ String::is_empty ](s: &String) -> (r: bool)
    ensures
        r == (s@.len() == 0),
;

/// Relies on std's `SystemTime`: seconds since the Unix epoch, or zero when
/// the clock reads before it.
#[verifier::external_body]
pub(crate) fn now_secs() -> (r: i64) {
    match std::time::SystemTime::now().duration_since(std::time::UNIX_EPOCH) {
        Ok(d) => d.as_secs() as i64,
        Err(_) => 0,
    }
}

} // verus!
