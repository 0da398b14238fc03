//! What the answers to the confirmation prompts mean. Asking is the caller's
//! business.

use vstd::prelude::*;

use crate::text::{chars_of, lowercase, str_eq, string_of, to_lowercase, trim, trim_chars};

verus! {

/// A yes/no answer that says yes: `y` or `yes`, whatever the case and the
/// surrounding whitespace; anything else, the empty answer included, is no.
pub open spec fn accepts_spec(answer: Seq<char>) -> bool {
    lowercase(trim(answer)) == "y"@ || lowercase(trim(answer)) == "yes"@
}

/// Whether a yes/no answer says yes.
pub fn accepts(answer: &str) -> (r: bool)
    ensures
        r == accepts_spec(answer@),
{
    let t = trim_chars(chars_of(answer).as_slice());
    let ts = string_of(t.as_slice());
    let lowered = to_lowercase(ts.as_str());
    str_eq(lowered.as_str(), "y") || str_eq(lowered.as_str(), "yes")
}

/// Whether the answer is the expected phrase, up to surrounding whitespace.
pub fn phrase_confirmed(answer: &str, phrase: &str) -> (r: bool)
    ensures
        r == (trim(answer@) == phrase@),
{
    let t = trim_chars(chars_of(answer).as_slice());
    let p = chars_of(phrase);
    crate::text::chars_eq(t.as_slice(), p.as_slice())
}

} // verus!
