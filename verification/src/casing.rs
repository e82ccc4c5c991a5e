//! Upper-casing, by which words are compared.

use vstd::prelude::*;

verus! {

/// The upper-case form of a string, as `str::to_uppercase` gives it: every
/// character replaced by its Unicode upper-case mapping, which may be longer
/// than one character.
pub uninterp spec fn uppercase(s: Seq<char>) -> Seq<char>;

/// `str::to_uppercase` returns the upper-case form of the string as a new
/// `String`. The mapping is fixed by Unicode and does not depend on a locale,
/// so it is a function of the characters alone; it is not spelled out here.
pub assume_specification[ str::to_uppercase ](s: &str) -> (upper: String)
    ensures
        upper@ == uppercase(s@),
;

/// Two words are the same word when their upper-case forms are equal.
pub open spec fn same_word(a: Seq<char>, b: Seq<char>) -> bool {
    uppercase(a) == uppercase(b)
}

} // verus!
