//! Reading the operator's answers when the server is set up.
use vstd::prelude::*;

verus! {

/// The lower-case form of a text, as `str::to_lowercase` gives it.
pub uninterp spec fn lowercase(s: Seq<char>) -> Seq<char>;

/// `str::to_lowercase`: the text with every character in lower case, by
/// the Unicode rules of the standard library.  The result is named by
/// `lowercase`; the case tables are left to the standard library.
#[verifier::external_body]
pub(crate) fn to_lowercase(s: &str) -> (r: String)
    ensures
        r@ == lowercase(s@),
{
    s.to_lowercase()
}

/// The answer to a yes/no question: `y` (in any case) is yes, `n` (in any
/// case) is no, anything else leaves the setting as it was.
pub open spec fn yes_no(answer: Seq<char>) -> Option<bool> {
    let l = lowercase(answer);
    if l == "y"@ {
        Some(true)
    } else if l == "n"@ {
        Some(false)
    } else {
        None
    }
}

/// The answer to a yes/no question (see `yes_no`).
pub fn parse_yes_no(answer: &str) -> (r: Option<bool>)
    ensures
        r == yes_no(answer@),
{
    let l = to_lowercase(answer);
    if l == "y".to_string() {
        Some(true)
    } else if l == "n".to_string() {
        Some(false)
    } else {
        None
    }
}

} // verus!
