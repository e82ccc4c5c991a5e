//! The word list against which words are checked.

use vstd::prelude::*;
use crate::casing::{same_word, uppercase};

verus! {

/// Whether `dict` holds `word`, upper and lower case taken as the same.
pub open spec fn dict_contains(dict: Seq<Seq<char>>, word: Seq<char>) -> bool {
    exists|i: int| 0 <= i < dict.len() && same_word(#[trigger] dict[i], word)
}

/// Looks `word` up in `dict`, upper and lower case taken as the same.
pub fn contains(dict: &Vec<String>, word: &str) -> (found: bool)
    ensures
        found == dict_contains(dict.deep_view(), word@),
{
    let upper = word.to_uppercase();
    let mut i: usize = 0;
    while i < dict.len()
        invariant
            i <= dict.len(),
            upper@ == uppercase(word@),
            forall|j: int| 0 <= j < i ==> !same_word(#[trigger] dict.deep_view()[j], word@),
        decreases dict.len() - i,
    {
        let entry = dict[i].to_uppercase();
        if entry == upper {
            assert(same_word(dict.deep_view()[i as int], word@));
            return true;
        }
        i = i + 1;
    }
    false
}

/// The upper-case forms of `words`, in the same order.
pub fn upper_words(words: &Vec<String>) -> (upper: Vec<String>)
    ensures
        upper.len() == words.len(),
        forall|i: int| 0 <= i < words.len() ==> (#[trigger] upper[i])@ == uppercase(words[i]@),
{
    let mut upper: Vec<String> = Vec::new();
    let mut i: usize = 0;
    while i < words.len()
        invariant
            i <= words.len(),
            upper.len() == i,
            forall|j: int| 0 <= j < i ==> (#[trigger] upper[j])@ == uppercase(words[j]@),
        decreases words.len() - i,
    {
        upper.push(words[i].to_uppercase());
        i = i + 1;
    }
    upper
}

} // verus!
