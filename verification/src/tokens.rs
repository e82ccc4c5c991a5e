//! Words and the gaps between them.
//!
//! A word is a maximal run of word characters; everything else is gap. The
//! positions used here count characters, not bytes.

use vstd::prelude::*;

verus! {

/// The alphabet of words: the ASCII letters and the apostrophe.
pub open spec fn is_word_char(c: char) -> bool {
    ('a' <= c && c <= 'z') || ('A' <= c && c <= 'Z') || c == '\''
}

/// Tells whether `c` belongs to a word.
pub fn word_char(c: char) -> (b: bool)
    ensures
        b == is_word_char(c),
{
    ('a' <= c && c <= 'z') || ('A' <= c && c <= 'Z') || c == '\''
}

/// The place of one word in a text: the characters `start..end`.
#[derive(Clone, Copy, Debug, PartialEq, Eq, Structural)]
pub struct Span {
    pub start: usize,
    pub end: usize,
}

impl View for Span {
    type V = (int, int);

    open spec fn view(&self) -> (int, int) {
        (self.start as int, self.end as int)
    }
}

impl DeepView for Span {
    type V = (int, int);

    open spec fn deep_view(&self) -> (int, int) {
        self.view()
    }
}

/// Where the run of gap characters that begins at `from` ends.
pub open spec fn gap_end(text: Seq<char>, from: int) -> int
    decreases text.len() - from,
{
    if 0 <= from < text.len() && !is_word_char(text[from]) {
        gap_end(text, from + 1)
    } else {
        from
    }
}

/// Where the run of word characters that begins at `from` ends.
pub open spec fn word_end(text: Seq<char>, from: int) -> int
    decreases text.len() - from,
{
    if 0 <= from < text.len() && is_word_char(text[from]) {
        word_end(text, from + 1)
    } else {
        from
    }
}

/// The words of `text` that begin at or after `from`, in order.
pub open spec fn spans_from(text: Seq<char>, from: int) -> Seq<(int, int)>
    decreases text.len() - from,
    via spans_from_decreases
{
    let start = gap_end(text, from);
    if 0 <= from && start < text.len() {
        let end = word_end(text, start);
        seq![(start, end)] + spans_from(text, end)
    } else {
        Seq::empty()
    }
}

#[via_fn]
proof fn spans_from_decreases(text: Seq<char>, from: int) {
    let start = gap_end(text, from);
    if 0 <= from && start < text.len() {
        lemma_gap_end(text, from);
        lemma_word_end(text, start + 1);
    }
}

/// The words of `text`, in order.
pub open spec fn word_spans(text: Seq<char>) -> Seq<(int, int)> {
    spans_from(text, 0)
}

/// A gap run holds gap characters only and stops at a word character or at
/// the end of the text.
pub proof fn lemma_gap_end(text: Seq<char>, from: int)
    requires
        0 <= from <= text.len(),
    ensures
        from <= gap_end(text, from) <= text.len(),
        forall|i: int| from <= i < gap_end(text, from) ==> !is_word_char(#[trigger] text[i]),
        gap_end(text, from) < text.len() ==> is_word_char(text[gap_end(text, from)]),
    decreases text.len() - from,
{
    if from < text.len() && !is_word_char(text[from]) {
        lemma_gap_end(text, from + 1);
    }
}

/// A word run holds word characters only and stops at a gap character or at
/// the end of the text.
pub proof fn lemma_word_end(text: Seq<char>, from: int)
    requires
        0 <= from <= text.len(),
    ensures
        from <= word_end(text, from) <= text.len(),
        forall|i: int| from <= i < word_end(text, from) ==> is_word_char(#[trigger] text[i]),
        word_end(text, from) < text.len() ==> !is_word_char(text[word_end(text, from)]),
    decreases text.len() - from,
{
    if from < text.len() && is_word_char(text[from]) {
        lemma_word_end(text, from + 1);
    }
}

/// Whether the characters `start..end` of `text` are a word: a run of word
/// characters that is not empty and that no word character precedes or
/// follows.
pub open spec fn is_word(text: Seq<char>, start: int, end: int) -> bool {
    &&& 0 <= start < end <= text.len()
    &&& forall|i: int| start <= i < end ==> is_word_char(#[trigger] text[i])
    &&& (start == 0 || !is_word_char(text[start - 1]))
    &&& (end == text.len() || !is_word_char(text[end]))
}

/// Whether `spans` lists the words of `text` that begin at or after `from`:
/// each span is a word, the spans come in the order of the text without
/// touching, and every word character at or after `from` lies in one of them.
pub open spec fn lists_words_from(text: Seq<char>, spans: Seq<(int, int)>, from: int) -> bool {
    &&& forall|k: int|
        0 <= k < spans.len() ==> is_word(text, (#[trigger] spans[k]).0, spans[k].1) && from
            <= spans[k].0
    &&& forall|j: int, k: int|
        0 <= j < k < spans.len() ==> (#[trigger] spans[j]).1 < (#[trigger] spans[k]).0
    &&& forall|i: int|
        from <= i < text.len() && is_word_char(#[trigger] text[i]) ==> exists|k: int|
            0 <= k < spans.len() && (#[trigger] spans[k]).0 <= i < spans[k].1
}

/// Whether `spans` lists the words of `text`.
pub open spec fn lists_words(text: Seq<char>, spans: Seq<(int, int)>) -> bool {
    lists_words_from(text, spans, 0)
}

/// Whether `from` is a place where a scan may begin: not inside a word.
pub open spec fn between_words(text: Seq<char>, from: int) -> bool {
    &&& 0 <= from <= text.len()
    &&& (from == 0 || from == text.len() || !is_word_char(text[from - 1]) || !is_word_char(
        text[from],
    ))
}

/// A run of word characters that stops at a gap character or at the end of
/// the text ends where `word_end` says.
pub proof fn lemma_word_end_is(text: Seq<char>, from: int, end: int)
    requires
        0 <= from <= end <= text.len(),
        forall|i: int| from <= i < end ==> is_word_char(#[trigger] text[i]),
        end == text.len() || !is_word_char(text[end]),
    ensures
        word_end(text, from) == end,
    decreases end - from,
{
    if from < end {
        lemma_word_end_is(text, from + 1, end);
    }
}

/// The scan from a place between words lists the words from there on.
pub proof fn lemma_spans_from(text: Seq<char>, from: int)
    requires
        between_words(text, from),
    ensures
        lists_words_from(text, spans_from(text, from), from),
    decreases text.len() - from,
{
    let start = gap_end(text, from);
    lemma_gap_end(text, from);
    if start < text.len() {
        let end = word_end(text, start);
        lemma_word_end(text, start);
        lemma_word_end(text, start + 1);
        let rest = spans_from(text, end);
        lemma_spans_from(text, end);
        let spans = spans_from(text, from);
        assert(spans == seq![(start, end)] + rest);
        assert(is_word(text, start, end));
        assert forall|k: int| 0 <= k < spans.len() implies is_word(
            text,
            (#[trigger] spans[k]).0,
            spans[k].1,
        ) && from <= spans[k].0 by {
            if k > 0 {
                assert(spans[k] == rest[k - 1]);
            }
        }
        assert forall|j: int, k: int| 0 <= j < k < spans.len() implies (#[trigger] spans[j]).1 < (
        #[trigger] spans[k]).0 by {
            assert(spans[k] == rest[k - 1]);
            if j > 0 {
                assert(spans[j] == rest[j - 1]);
            }
        }
        assert forall|i: int|
            from <= i < text.len() && is_word_char(#[trigger] text[i]) implies exists|k: int|
            0 <= k < spans.len() && (#[trigger] spans[k]).0 <= i < spans[k].1 by {
            if i < end {
                assert(spans[0].0 <= i < spans[0].1);
            } else {
                let k = choose|k: int| 0 <= k < rest.len() && (#[trigger] rest[k]).0 <= i < rest[k].1;
                assert(spans[k + 1] == rest[k]);
            }
        }
    }
}

/// The words found are the maximal runs of word characters, each once, in
/// the order of the text.
pub proof fn lemma_word_spans(text: Seq<char>)
    ensures
        lists_words(text, word_spans(text)),
{
    lemma_spans_from(text, 0);
}

/// Only one list holds the words that begin at or after a place between
/// words.
pub proof fn lemma_spans_from_unique(text: Seq<char>, spans: Seq<(int, int)>, from: int)
    requires
        between_words(text, from),
        lists_words_from(text, spans, from),
    ensures
        spans == spans_from(text, from),
    decreases text.len() - from,
{
    let start = gap_end(text, from);
    lemma_gap_end(text, from);
    if start < text.len() {
        let end = word_end(text, start);
        lemma_word_end(text, start);
        lemma_word_end(text, start + 1);
        let k = choose|k: int| 0 <= k < spans.len() && (#[trigger] spans[k]).0 <= start < spans[k].1;
        assert(is_word(text, spans[k].0, spans[k].1));
        assert(spans[k].0 == start) by {
            if spans[k].0 < start {
                assert(is_word_char(text[spans[k].0]));
            }
        }
        lemma_word_end_is(text, start, spans[k].1);
        assert(k == 0) by {
            if k > 0 {
                assert(is_word(text, spans[0].0, spans[0].1));
                assert(spans[0].1 < spans[k].0);
                assert(is_word_char(text[spans[0].0]));
            }
        }
        let rest = spans.subrange(1, spans.len() as int);
        assert forall|i: int|
            end <= i < text.len() && is_word_char(#[trigger] text[i]) implies exists|j: int|
            0 <= j < rest.len() && (#[trigger] rest[j]).0 <= i < rest[j].1 by {
            let m = choose|m: int| 0 <= m < spans.len() && (#[trigger] spans[m]).0 <= i < spans[m].1;
            assert(rest[m - 1] == spans[m]);
        }
        assert(lists_words_from(text, rest, end)) by {
            assert forall|j: int| 0 <= j < rest.len() implies is_word(
                text,
                (#[trigger] rest[j]).0,
                rest[j].1,
            ) && end <= rest[j].0 by {
                assert(rest[j] == spans[j + 1]);
                assert(spans[0].1 < spans[j + 1].0);
            }
            assert forall|i: int, j: int| 0 <= i < j < rest.len() implies (#[trigger] rest[i]).1 < (
            #[trigger] rest[j]).0 by {
                assert(rest[i] == spans[i + 1]);
                assert(rest[j] == spans[j + 1]);
            }
        }
        lemma_spans_from_unique(text, rest, end);
        assert(spans =~= seq![(start, end)] + rest);
    } else {
        if spans.len() > 0 {
            assert(is_word(text, spans[0].0, spans[0].1));
            assert(is_word_char(text[spans[0].0]));
        }
        assert(spans =~= Seq::empty());
    }
}

/// The words of a text are fixed by what a word is: any list of all the
/// maximal runs of word characters, in order, is the list that is found.
pub proof fn lemma_word_spans_unique(text: Seq<char>, spans: Seq<(int, int)>)
    requires
        lists_words(text, spans),
    ensures
        spans == word_spans(text),
{
    lemma_spans_from_unique(text, spans, 0);
}

/// Finds the words of `text`.
pub fn find_words(text: &Vec<char>) -> (spans: Vec<Span>)
    ensures
        spans.deep_view() == word_spans(text@),
{
    let n = text.len();
    let mut spans: Vec<Span> = Vec::new();
    let mut i: usize = 0;
    while i < n
        invariant
            n == text.len(),
            i <= n,
            spans.deep_view() + spans_from(text@, i as int) == word_spans(text@),
        decreases n - i,
    {
        let mut start = i;
        while start < n && !word_char(text[start])
            invariant
                n == text.len(),
                i <= start <= n,
                gap_end(text@, start as int) == gap_end(text@, i as int),
            decreases n - start,
        {
            start = start + 1;
        }
        if start < n {
            let mut end = start + 1;
            while end < n && word_char(text[end])
                invariant
                    n == text.len(),
                    start < end <= n,
                    word_end(text@, end as int) == word_end(text@, start as int),
                decreases n - end,
            {
                end = end + 1;
            }
            let ghost before = spans.deep_view();
            spans.push(Span { start, end });
            proof {
                let rest = spans_from(text@, end as int);
                assert(spans.deep_view() =~= before + seq![(start as int, end as int)]);
                assert(spans_from(text@, i as int) == seq![(start as int, end as int)] + rest);
                assert(spans.deep_view() + rest =~= before + (seq![(start as int, end as int)]
                    + rest));
            }
            i = end;
        } else {
            i = start;
        }
    }
    assert(spans.deep_view() + Seq::<(int, int)>::empty() =~= spans.deep_view());
    spans
}

} // verus!
