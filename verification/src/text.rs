//! What is taken on trust from the standard library's text handling.

use vstd::prelude::*;

verus! {

/// The lowercase form of a text, as `str::to_lowercase` computes it from the
/// characters of the text and nothing else. Unicode's case mapping is not
/// written out here; the scoring only asks whether two lowercase forms are
/// equal.
pub uninterp spec fn lowercase_of(s: Seq<char>) -> Seq<char>;

/// `str::to_lowercase`, believed without proof: the result is the lowercase
/// form of the argument, a function of its characters alone.
pub assume_specification[ str::to_lowercase ](s: &str) -> (r: String)
    ensures
        r@ == lowercase_of(s@),
;

/// `String::push`, believed without proof: the string afterwards is the
/// string before with the character appended at its end.
pub assume_specification[ String::push ](s: &mut String, ch: char)
    ensures
        final(s)@ == old(s)@.push(ch),
;

} // verus!
