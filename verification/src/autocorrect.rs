//! Correction by the nearest word of a dictionary.

use vstd::prelude::*;
use vstd::string::StringExecFns;
use vstd::string::StrSliceExecFns;
use crate::casing::{same_word, uppercase};
use crate::corrector::Corrector;
use crate::dictionary::dict_contains;
use crate::distance::{edit_distance, lemma_levenshtein_zero, levenshtein};
use crate::text::{decimal, decimal_string};

verus! {

/// The distance reported when the dictionary offers no word.
pub open spec fn no_distance() -> int {
    usize::MAX as int
}

/// What the search reads of one entry of the dictionary: the length of its
/// upper-case form and its distance from the word looked for.
#[derive(Clone, Copy, Debug, PartialEq, Eq, Structural)]
pub struct Candidate {
    pub len: usize,
    pub distance: usize,
}

impl View for Candidate {
    type V = (int, int);

    open spec fn view(&self) -> (int, int) {
        (self.len as int, self.distance as int)
    }
}

impl DeepView for Candidate {
    type V = (int, int);

    open spec fn deep_view(&self) -> (int, int) {
        self.view()
    }
}

/// Whether an entry takes the place of the best entry found so far: it does
/// when it is strictly nearer, and on equal distance only when it is as long
/// as the word looked for and shorter than the best so far. All lengths are
/// those of the upper-case forms.
pub open spec fn replaces_best(
    query_len: int,
    best_len: int,
    best_distance: int,
    entry_len: int,
    distance: int,
) -> bool {
    distance < best_distance || (distance == best_distance && query_len == entry_len && best_len
        > entry_len)
}

/// Decides whether an entry takes the place of the best entry found so far.
pub fn takes_over(
    query_len: usize,
    best_len: usize,
    best_distance: usize,
    entry_len: usize,
    distance: usize,
) -> (better: bool)
    ensures
        better == replaces_best(
            query_len as int,
            best_len as int,
            best_distance as int,
            entry_len as int,
            distance as int,
        ),
{
    distance < best_distance || (distance == best_distance && query_len == entry_len && best_len
        > entry_len)
}

/// Length and distance of candidate `k`; a negative `k` stands for the state
/// before any candidate is held: the empty word at no distance.
pub open spec fn held(candidates: Seq<(int, int)>, k: int) -> (int, int) {
    if k < 0 {
        (0, no_distance())
    } else {
        candidates[k]
    }
}

/// The index of the candidate that the search holds after it has gone
/// through the first `n` candidates in order, or -1 when it holds none.
pub open spec fn held_after(query_len: int, candidates: Seq<(int, int)>, n: int) -> int
    decreases n,
{
    if n <= 0 {
        -1
    } else {
        let best = held_after(query_len, candidates, n - 1);
        if replaces_best(
            query_len,
            held(candidates, best).0,
            held(candidates, best).1,
            candidates[n - 1].0,
            candidates[n - 1].1,
        ) {
            n - 1
        } else {
            best
        }
    }
}

/// The index of the candidate that the search ends with, or -1.
pub open spec fn choice(query_len: int, candidates: Seq<(int, int)>) -> int {
    held_after(query_len, candidates, candidates.len() as int)
}

/// Goes through the candidates in order and returns the index of the one it
/// ends with, if any.
pub fn choose_nearest(query_len: usize, candidates: &Vec<Candidate>) -> (best: Option<usize>)
    ensures
        choice(query_len as int, candidates.deep_view()) == (match best {
            Some(k) => k as int,
            None => -1,
        }),
        best matches Some(k) ==> k < candidates.len(),
{
    let mut best: Option<usize> = None;
    let mut best_len: usize = 0;
    let mut best_distance: usize = usize::MAX;
    let mut k: usize = 0;
    while k < candidates.len()
        invariant
            k <= candidates.len(),
            held_after(query_len as int, candidates.deep_view(), k as int) == (match best {
                Some(b) => b as int,
                None => -1,
            }),
            best is Some ==> best->0 < k,
            (best_len as int, best_distance as int) == held(
                candidates.deep_view(),
                held_after(query_len as int, candidates.deep_view(), k as int),
            ),
        decreases candidates.len() - k,
    {
        let candidate = candidates[k];
        assert(candidates.deep_view()[k as int] == candidate@);
        if takes_over(query_len, best_len, best_distance, candidate.len, candidate.distance) {
            best = Some(k);
            best_len = candidate.len;
            best_distance = candidate.distance;
        }
        k = k + 1;
    }
    best
}

/// The search never holds a candidate that it has not seen; none of those it
/// has seen is nearer than the one it holds; and it holds none only where
/// each of them is as far away as `usize::MAX` or farther.
pub proof fn lemma_held_after(query_len: int, candidates: Seq<(int, int)>, n: int)
    requires
        0 <= n <= candidates.len(),
        forall|i: int| 0 <= i < n ==> (#[trigger] candidates[i]).0 >= 0,
    ensures
        -1 <= held_after(query_len, candidates, n) < n,
        held(candidates, held_after(query_len, candidates, n)).1 <= no_distance(),
        forall|i: int|
            0 <= i < n ==> held(candidates, held_after(query_len, candidates, n)).1 <= (
            #[trigger] candidates[i]).1,
        held_after(query_len, candidates, n) < 0 <==> forall|i: int|
            0 <= i < n ==> (#[trigger] candidates[i]).1 >= no_distance(),
    decreases n,
{
    if n > 0 {
        lemma_held_after(query_len, candidates, n - 1);
        let best = held_after(query_len, candidates, n - 1);
        let now = held_after(query_len, candidates, n);
        if best >= 0 {
            let i = choose|i: int| 0 <= i < n - 1 && (#[trigger] candidates[i]).1 < no_distance();
            assert(candidates[now].1 <= candidates[i].1);
        } else if now >= 0 {
            assert(candidates[n - 1].1 < no_distance());
        }
    }
}

/// Length and distance of every entry of `dict` as the search for `word`
/// reads them.
pub open spec fn candidates_of(dict: Seq<Seq<char>>, word: Seq<char>) -> Seq<(int, int)> {
    Seq::new(
        dict.len(),
        |k: int|
            (
                uppercase(dict[k]).len() as int,
                levenshtein(uppercase(word), uppercase(dict[k])) as int,
            ),
    )
}

/// The index of the entry of `dict` nearest to `word`, or -1.
pub open spec fn nearest_index(dict: Seq<Seq<char>>, word: Seq<char>) -> int {
    choice(uppercase(word).len() as int, candidates_of(dict, word))
}

/// The entry of `dict` nearest to `word`, as the dictionary spells it; the
/// empty word when there is none.
pub open spec fn nearest_word(dict: Seq<Seq<char>>, word: Seq<char>) -> Seq<char> {
    let k = nearest_index(dict, word);
    if k < 0 {
        Seq::empty()
    } else {
        dict[k]
    }
}

/// The distance between `word` and the entry of `dict` nearest to it, both
/// in upper case; `usize::MAX` when there is no such entry.
pub open spec fn nearest_distance(dict: Seq<Seq<char>>, word: Seq<char>) -> int {
    held(candidates_of(dict, word), nearest_index(dict, word)).1
}

/// The word found is the nearest there is: no entry of the dictionary is
/// nearer to `word` than the distance reported. The word is an entry of the
/// dictionary unless every entry is as far away as `usize::MAX`.
pub proof fn lemma_nearest_is_least(dict: Seq<Seq<char>>, word: Seq<char>)
    ensures
        -1 <= nearest_index(dict, word) < dict.len(),
        0 <= nearest_distance(dict, word) <= no_distance(),
        forall|i: int|
            0 <= i < dict.len() ==> nearest_distance(dict, word) <= levenshtein(
                uppercase(word),
                uppercase(#[trigger] dict[i]),
            ),
        nearest_index(dict, word) < 0 <==> forall|i: int|
            0 <= i < dict.len() ==> levenshtein(uppercase(word), uppercase(#[trigger] dict[i]))
                >= no_distance(),
{
    let candidates = candidates_of(dict, word);
    lemma_held_after(uppercase(word).len() as int, candidates, dict.len() as int);
    assert forall|i: int| 0 <= i < dict.len() implies nearest_distance(dict, word) <= levenshtein(
        uppercase(word),
        uppercase(#[trigger] dict[i]),
    ) by {
        assert(candidates[i].1 == levenshtein(uppercase(word), uppercase(dict[i])));
    }
    if nearest_index(dict, word) < 0 {
        assert forall|i: int| 0 <= i < dict.len() implies levenshtein(
            uppercase(word),
            uppercase(#[trigger] dict[i]),
        ) >= no_distance() by {
            assert(candidates[i].1 >= no_distance());
        }
    }
    if forall|i: int|
        0 <= i < dict.len() ==> levenshtein(uppercase(word), uppercase(#[trigger] dict[i]))
            >= no_distance() {
        assert forall|i: int| 0 <= i < dict.len() implies (#[trigger] candidates[i]).1
            >= no_distance() by {
            assert(candidates[i].1 == levenshtein(uppercase(word), uppercase(dict[i])));
        }
    }
}

/// The distance reported is zero exactly when the dictionary holds the word,
/// upper and lower case taken as the same.
pub proof fn lemma_zero_distance(dict: Seq<Seq<char>>, word: Seq<char>)
    ensures
        nearest_distance(dict, word) == 0 <==> dict_contains(dict, word),
{
    lemma_nearest_is_least(dict, word);
    let k = nearest_index(dict, word);
    if nearest_distance(dict, word) == 0 {
        lemma_levenshtein_zero(uppercase(word), uppercase(dict[k]));
        assert(same_word(dict[k], word));
    }
    if dict_contains(dict, word) {
        let i = choose|i: int| 0 <= i < dict.len() && same_word(#[trigger] dict[i], word);
        lemma_levenshtein_zero(uppercase(word), uppercase(dict[i]));
    }
}

/// With an empty dictionary the search finds the empty word at the distance
/// `usize::MAX`, whatever the word.
pub proof fn lemma_empty_dictionary(dict: Seq<Seq<char>>, word: Seq<char>)
    requires
        dict.len() == 0,
    ensures
        nearest_word(dict, word) == Seq::<char>::empty(),
        nearest_distance(dict, word) == usize::MAX,
{
}

/// The note that shows a substitution: the word as it was written, the entry
/// that replaces it and their distance, separated by colons, in parentheses.
pub open spec fn substitution_note(word: Seq<char>, entry: Seq<char>, distance: nat) -> Seq<char> {
    seq!['('] + word + seq![':'] + entry + seq![':'] + decimal(distance) + seq![')']
}

/// Writes the note that shows a substitution.
pub fn note(word: &str, entry: &str, distance: usize) -> (text: String)
    ensures
        text@ == substitution_note(word@, entry@, distance as nat),
{
    let mut text = String::new();
    text.push('(');
    text.append(word);
    text.push(':');
    text.append(entry);
    text.push(':');
    let digits = decimal_string(distance);
    text.append(digits.as_str());
    text.push(')');
    assert(text@ =~= substitution_note(word@, entry@, distance as nat));
    text
}

/// Replaces a word by the dictionary word nearest to it.
pub struct AutoCorrector {
    dict_words: Vec<String>,
    show_sub: bool,
}

impl AutoCorrector {
    /// The corrector's own word list.
    pub closed spec fn words(&self) -> Seq<Seq<char>> {
        self.dict_words.deep_view()
    }

    /// Whether a replacement shows the word it replaces and the distance.
    pub closed spec fn shows_substitution(&self) -> bool {
        self.show_sub
    }

    /// A corrector with its own copy of `dict_words`.
    pub fn new(dict_words: &Vec<String>, show_sub: bool) -> (corrector: AutoCorrector)
        ensures
            corrector.words() == dict_words.deep_view(),
            corrector.shows_substitution() == show_sub,
    {
        let words = dict_words.clone();
        assert(words.deep_view() =~= dict_words.deep_view());
        AutoCorrector { dict_words: words, show_sub }
    }

    /// Measures every entry of the word list against `upper`, the word looked
    /// for in upper case.
    fn measure(&self, upper: &str) -> (candidates: Vec<Candidate>)
        ensures
            candidates.len() == self.words().len(),
            forall|k: int|
                0 <= k < candidates.len() ==> (#[trigger] candidates[k])@ == (
                    uppercase(self.words()[k]).len() as int,
                    levenshtein(upper@, uppercase(self.words()[k])) as int,
                ),
    {
        let mut candidates: Vec<Candidate> = Vec::new();
        let mut k: usize = 0;
        while k < self.dict_words.len()
            invariant
                k <= self.dict_words.len(),
                candidates.len() == k,
                forall|j: int|
                    0 <= j < k ==> (#[trigger] candidates[j])@ == (
                        uppercase(self.words()[j]).len() as int,
                        levenshtein(upper@, uppercase(self.words()[j])) as int,
                    ),
            decreases self.dict_words.len() - k,
        {
            let entry = self.dict_words[k].to_uppercase();
            let distance = edit_distance(upper, entry.as_str());
            let len = entry.as_str().unicode_len();
            candidates.push(Candidate { len, distance });
            k = k + 1;
        }
        candidates
    }

    /// Finds the dictionary word nearest to `word` and its distance. With an
    /// empty dictionary the word is empty and the distance is `usize::MAX`.
    pub fn closest_word(&self, word: &str) -> (nearest: (String, usize))
        ensures
            nearest.0@ == nearest_word(self.words(), word@),
            nearest.1 == nearest_distance(self.words(), word@),
    {
        let upper = word.to_uppercase();
        let query_len = upper.as_str().unicode_len();
        let candidates = self.measure(upper.as_str());
        assert(candidates.deep_view() =~= candidates_of(self.words(), word@));
        match choose_nearest(query_len, &candidates) {
            Some(k) => (self.dict_words[k].clone(), candidates[k].distance),
            None => (String::new(), usize::MAX),
        }
    }
}

impl Corrector for AutoCorrector {
    open spec fn replacement(&self, word: Seq<char>) -> Seq<char> {
        let entry = nearest_word(self.words(), word);
        if self.shows_substitution() {
            substitution_note(word, entry, nearest_distance(self.words(), word) as nat)
        } else {
            entry
        }
    }

    /// The nearest dictionary word, alone or in a note that shows the
    /// substitution. The word list and the flag stay as they are.
    fn correct_word(&mut self, word: &str) -> (corrected: String)
        ensures
            final(self).words() == old(self).words(),
            final(self).shows_substitution() == old(self).shows_substitution(),
    {
        let (entry, distance) = self.closest_word(word);
        if self.show_sub {
            note(word, entry.as_str(), distance)
        } else {
            entry
        }
    }
}

/// A corrector with an empty dictionary puts the empty word in place of any
/// word, or the note that shows the empty word at the distance `usize::MAX`.
pub proof fn lemma_empty_dictionary_replacement(corrector: AutoCorrector, word: Seq<char>)
    requires
        corrector.words().len() == 0,
    ensures
        corrector.replacement(word) == if corrector.shows_substitution() {
            substitution_note(word, Seq::empty(), usize::MAX as nat)
        } else {
            Seq::empty()
        },
{
    lemma_empty_dictionary(corrector.words(), word);
}

} // verus!
