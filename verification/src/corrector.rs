//! Correction strategies: what is put in place of a word that the dictionary
//! does not hold.

use vstd::prelude::*;
use vstd::string::StringExecFns;
use crate::casing::uppercase;

verus! {

/// A correction strategy. What it puts in place of a word depends on the
/// word and on the strategy's configuration, which no call changes.
pub trait Corrector {
    /// What `correct_word` puts in place of `word`. A strategy states it
    /// here; one that states nothing leaves every word as it is.
    open spec fn replacement(&self, word: Seq<char>) -> Seq<char> {
        word
    }

    /// Produces the text that takes the place of `word`.
    fn correct_word(&mut self, word: &str) -> (corrected: String)
        ensures
            corrected@ == old(self).replacement(word@),
            forall|w: Seq<char>| #[trigger] final(self).replacement(w) == old(self).replacement(w),
    ;
}

/// `word` in upper case between the two marks.
pub open spec fn marked(begin: Seq<char>, word: Seq<char>, end: Seq<char>) -> Seq<char> {
    begin + uppercase(word) + end
}

/// Marks a word by putting it in upper case between a begin and an end mark,
/// so that it can be found and corrected later.
pub struct MarkCorrector {
    beg_mark: String,
    end_mark: String,
}

impl MarkCorrector {
    /// The mark put before a word.
    pub closed spec fn begin(&self) -> Seq<char> {
        self.beg_mark@
    }

    /// The mark put after a word.
    pub closed spec fn end(&self) -> Seq<char> {
        self.end_mark@
    }

    /// A corrector with the given begin and end marks.
    pub fn new(beg_mark: &str, end_mark: &str) -> (corrector: MarkCorrector)
        ensures
            corrector.begin() == beg_mark@,
            corrector.end() == end_mark@,
    {
        MarkCorrector { beg_mark: String::from_str(beg_mark), end_mark: String::from_str(end_mark) }
    }

    /// Puts `upper`, a word already in upper case, between the two marks.
    pub fn enclose(&self, upper: &str) -> (enclosed: String)
        ensures
            enclosed@ == self.begin() + upper@ + self.end(),
    {
        let mut enclosed = self.beg_mark.clone();
        enclosed.append(upper);
        enclosed.append(self.end_mark.as_str());
        enclosed
    }
}

impl Corrector for MarkCorrector {
    open spec fn replacement(&self, word: Seq<char>) -> Seq<char> {
        marked(self.begin(), word, self.end())
    }

    /// The word in upper case between the two marks, whatever was corrected
    /// before.
    fn correct_word(&mut self, word: &str) -> (corrected: String)
        ensures
            corrected@ == old(self).begin() + uppercase(word@) + old(self).end(),
            final(self).begin() == old(self).begin(),
            final(self).end() == old(self).end(),
    {
        let upper = word.to_uppercase();
        self.enclose(upper.as_str())
    }
}

} // verus!
