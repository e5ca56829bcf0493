//! Wrappers around functions of outside crates and of std that Verus has no
//! specification for. Each wrapper's contract is what its callers rely on.

use vstd::prelude::*;

verus! {

/// What `str::to_lowercase` returns for the characters `s`: a function of the
/// characters alone.
pub uninterp spec fn lower_of(s: Seq<char>) -> Seq<char>;

/// What `titlecase::titlecase` returns for the characters `s`: a function of
/// the characters alone.
pub uninterp spec fn title_cased(s: Seq<char>) -> Seq<char>;

/// Whether `char::is_alphabetic` holds of `c`.
pub uninterp spec fn is_alpha(c: char) -> bool;

/// Relies on `str::to_lowercase`: the result depends on the characters alone.
#[verifier::external_body]
pub fn to_lower_string(s: &str) -> (r: String)
    ensures
        r@ == lower_of(s@),
{
    s.to_lowercase()
}

/// Relies on `titlecase::titlecase`: title-case word capitalization, a
/// function of the characters alone.
#[verifier::external_body]
pub fn title_case_string(s: &str) -> (r: String)
    ensures
        r@ == title_cased(s@),
{
    titlecase::titlecase(s)
}

/// Relies on `String::push`: appends one character.
#[verifier::external_body]
pub fn push_char(s: &mut String, c: char)
    ensures
        final(s)@ == old(s)@.push(c),
{
    s.push(c)
}

/// Relies on `char::is_alphabetic`: a predicate on the character alone.
pub assume_specification[ char::is_alphabetic ](c: char) -> (r: bool)
    ensures
        r == is_alpha(c),
;

} // verus!
