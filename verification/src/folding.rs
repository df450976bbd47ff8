//! Letter case: the lowercase form of a text.
use vstd::prelude::*;

verus! {

/// The lowercase form of a text, as `str::to_lowercase` of the standard
/// library gives it: by the Unicode tables, the same for every locale.
pub uninterp spec fn lowercase(text: Seq<char>) -> Seq<char>;

/// Calls `str::to_lowercase`. Nothing is proved of it: the result is taken to
/// be a function of the text alone, here named `lowercase`, and the lowercase
/// form of the empty text is taken to be empty.
#[verifier::external_body]
pub(crate) fn to_lowercase(text: &str) -> (folded: String)
    ensures
        folded@ == lowercase(text@),
        text@.len() == 0 ==> folded@.len() == 0,
{
    text.to_lowercase()
}

} // verus!
