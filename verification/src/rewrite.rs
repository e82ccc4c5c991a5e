//! Rewriting a text: every word that the dictionary does not hold gives way
//! to what a correction strategy makes of it; all else stays as it is.

use vstd::prelude::*;
use vstd::string::StringExecFns;
use crate::corrector::{marked, Corrector, MarkCorrector};
use crate::dictionary::{contains, dict_contains};
use crate::text::{chars_of, push_chars, string_of};
use crate::tokens::{find_words, lemma_word_spans, lists_words, word_spans, Span};

verus! {

/// Whether `spans` lie within a text of `len` characters, one after the
/// other.
pub open spec fn in_order(len: int, spans: Seq<(int, int)>) -> bool {
    &&& forall|k: int|
        0 <= k < spans.len() ==> 0 <= (#[trigger] spans[k]).0 <= spans[k].1 <= len
    &&& forall|j: int, k: int|
        0 <= j < k < spans.len() ==> (#[trigger] spans[j]).1 <= (#[trigger] spans[k]).0
}

/// Where gap `k` begins: at the start of the text or after word `k - 1`.
pub open spec fn gap_start(spans: Seq<(int, int)>, k: int) -> int {
    if k <= 0 {
        0
    } else {
        spans[k - 1].1
    }
}

/// Where gap `k` ends: before word `k` or at the end of the text.
pub open spec fn gap_stop(len: int, spans: Seq<(int, int)>, k: int) -> int {
    if k >= spans.len() {
        len
    } else {
        spans[k].0
    }
}

/// Gap `k` of `text`: what stands before word `k`, and for `k == spans.len()`
/// what stands after the last word.
pub open spec fn gap(text: Seq<char>, spans: Seq<(int, int)>, k: int) -> Seq<char> {
    text.subrange(gap_start(spans, k), gap_stop(text.len() as int, spans, k))
}

/// Word `k` of `text`.
pub open spec fn word(text: Seq<char>, spans: Seq<(int, int)>, k: int) -> Seq<char> {
    text.subrange(spans[k].0, spans[k].1)
}

/// The first `n` gaps of `text`, each followed by the piece of the same
/// number.
pub open spec fn woven_upto(
    text: Seq<char>,
    spans: Seq<(int, int)>,
    pieces: Seq<Seq<char>>,
    n: int,
) -> Seq<char>
    decreases n,
{
    if n <= 0 {
        Seq::empty()
    } else {
        woven_upto(text, spans, pieces, n - 1) + gap(text, spans, n - 1) + pieces[n - 1]
    }
}

/// `text` with `pieces[k]` in place of word `k`: gap, piece, gap, piece and so
/// on, and the last gap at the end.
pub open spec fn woven(
    text: Seq<char>,
    spans: Seq<(int, int)>,
    pieces: Seq<Seq<char>>,
) -> Seq<char> {
    woven_upto(text, spans, pieces, spans.len() as int) + gap(text, spans, spans.len() as int)
}

/// What stands in place of `word`: the word itself where the dictionary
/// holds it, else what `replace` makes of it.
pub open spec fn piece(
    word: Seq<char>,
    dict: Seq<Seq<char>>,
    replace: spec_fn(Seq<char>) -> Seq<char>,
) -> Seq<char> {
    if dict_contains(dict, word) {
        word
    } else {
        replace(word)
    }
}

/// The pieces that stand in place of the words of `text`.
pub open spec fn pieces_of(
    text: Seq<char>,
    dict: Seq<Seq<char>>,
    replace: spec_fn(Seq<char>) -> Seq<char>,
) -> Seq<Seq<char>> {
    let spans = word_spans(text);
    Seq::new(spans.len(), |k: int| piece(word(text, spans, k), dict, replace))
}

/// `text` with every word that `dict` does not hold replaced by what
/// `replace` makes of it.
pub open spec fn rewritten(
    text: Seq<char>,
    dict: Seq<Seq<char>>,
    replace: spec_fn(Seq<char>) -> Seq<char>,
) -> Seq<char> {
    woven(text, word_spans(text), pieces_of(text, dict, replace))
}

/// A corrector as a function from words to replacements.
pub open spec fn strategy<T: Corrector>(corrector: T) -> spec_fn(Seq<char>) -> Seq<char> {
    |w: Seq<char>| corrector.replacement(w)
}

/// Marking as a function from words to replacements.
pub open spec fn mark_strategy(
    begin: Seq<char>,
    end: Seq<char>,
) -> spec_fn(Seq<char>) -> Seq<char> {
    |w: Seq<char>| marked(begin, w, end)
}

/// Puts `pieces[k]` in place of the characters `spans[k]` of `text` and keeps
/// what lies between the spans.
pub fn weave(text: &Vec<char>, spans: &Vec<Span>, pieces: &Vec<String>) -> (out: String)
    requires
        in_order(text.len() as int, spans.deep_view()),
        pieces.len() == spans.len(),
    ensures
        out@ == woven(text@, spans.deep_view(), pieces.deep_view()),
{
    let mut out = String::new();
    let mut last: usize = 0;
    let mut k: usize = 0;
    while k < spans.len()
        invariant
            k <= spans.len(),
            pieces.len() == spans.len(),
            in_order(text.len() as int, spans.deep_view()),
            last == gap_start(spans.deep_view(), k as int),
            last <= text.len(),
            out@ == woven_upto(text@, spans.deep_view(), pieces.deep_view(), k as int),
        decreases spans.len() - k,
    {
        let span = spans[k];
        proof {
            assert(spans.deep_view()[k as int] == (span.start as int, span.end as int));
            if k > 0 {
                assert(spans.deep_view()[k - 1].1 <= spans.deep_view()[k as int].0);
            }
        }
        push_chars(&mut out, text, last, span.start);
        out.append(pieces[k].as_str());
        assert(pieces.deep_view()[k as int] == pieces[k as int]@);
        last = span.end;
        k = k + 1;
    }
    push_chars(&mut out, text, last, text.len());
    out
}

/// Corrects `text`: every word that `dict` does not hold, upper and lower
/// case taken as the same, gives way to what `corrector` makes of it. Words
/// that `dict` holds and everything between the words stay as they are.
pub fn correct_string<T: Corrector>(
    text: &String,
    dict: &Vec<String>,
    corrector: &mut T,
) -> (corrected: String)
    ensures
        corrected@ == rewritten(text@, dict.deep_view(), strategy(*old(corrector))),
        forall|w: Seq<char>| #[trigger]
            final(corrector).replacement(w) == old(corrector).replacement(w),
{
    let chars = chars_of(text.as_str());
    let spans = find_words(&chars);
    let ghost replace = strategy(*corrector);
    let ghost all = pieces_of(text@, dict.deep_view(), replace);
    proof {
        lemma_word_spans(text@);
    }
    let mut pieces: Vec<String> = Vec::new();
    let mut k: usize = 0;
    while k < spans.len()
        invariant
            k <= spans.len(),
            chars@ == text@,
            spans.deep_view() == word_spans(text@),
            lists_words(text@, word_spans(text@)),
            all == pieces_of(text@, dict.deep_view(), replace),
            forall|w: Seq<char>| #[trigger] corrector.replacement(w) == replace(w),
            pieces.len() == k,
            forall|j: int| 0 <= j < k ==> (#[trigger] pieces[j])@ == all[j],
        decreases spans.len() - k,
    {
        let span = spans[k];
        assert(spans.deep_view()[k as int] == (span.start as int, span.end as int));
        let word = string_of(&chars, span.start, span.end);
        let piece = if contains(dict, word.as_str()) {
            word
        } else {
            corrector.correct_word(word.as_str())
        };
        pieces.push(piece);
        k = k + 1;
    }
    assert(pieces.deep_view() =~= all);
    proof {
        lemma_words_in_order(text@);
    }
    weave(&chars, &spans, &pieces)
}

/// Corrects `text` by marking: every word that `dict` does not hold stands in
/// upper case between two pairs of asterisks.
pub fn mark_corrected(text: &String, dict: &Vec<String>) -> (corrected: String)
    ensures
        corrected@ == rewritten(
            text@,
            dict.deep_view(),
            mark_strategy(seq!['*', '*'], seq!['*', '*']),
        ),
{
    let mut marker = MarkCorrector::new("**", "**");
    proof {
        reveal_strlit("**");
        assert("**"@ =~= seq!['*', '*']);
        assert(strategy(marker) =~= mark_strategy(seq!['*', '*'], seq!['*', '*']));
    }
    correct_string(text, dict, &mut marker)
}

/// The words of a text lie within it, one after the other.
pub proof fn lemma_words_in_order(text: Seq<char>)
    ensures
        in_order(text.len() as int, word_spans(text)),
{
    lemma_word_spans(text);
}

/// Where gap `k` begins in the woven text.
pub open spec fn gap_at(
    text: Seq<char>,
    spans: Seq<(int, int)>,
    pieces: Seq<Seq<char>>,
    k: int,
) -> int {
    woven_upto(text, spans, pieces, k).len() as int
}

/// Where piece `k` begins in the woven text.
pub open spec fn piece_at(
    text: Seq<char>,
    spans: Seq<(int, int)>,
    pieces: Seq<Seq<char>>,
    k: int,
) -> int {
    gap_at(text, spans, pieces, k) + gap(text, spans, k).len()
}

/// What is woven up to `k` is the beginning of what is woven up to `n`.
proof fn lemma_woven_upto_grows(
    text: Seq<char>,
    spans: Seq<(int, int)>,
    pieces: Seq<Seq<char>>,
    k: int,
    n: int,
)
    requires
        0 <= k <= n,
    ensures
        woven_upto(text, spans, pieces, k).len() <= woven_upto(text, spans, pieces, n).len(),
        woven_upto(text, spans, pieces, n).subrange(
            0,
            woven_upto(text, spans, pieces, k).len() as int,
        ) == woven_upto(text, spans, pieces, k),
    decreases n - k,
{
    let short = woven_upto(text, spans, pieces, k);
    let long = woven_upto(text, spans, pieces, n);
    if k < n {
        lemma_woven_upto_grows(text, spans, pieces, k, n - 1);
        let mid = woven_upto(text, spans, pieces, n - 1);
        assert(long == mid + gap(text, spans, n - 1) + pieces[n - 1]);
        assert(long.subrange(0, short.len() as int) =~= mid.subrange(0, short.len() as int));
    } else {
        assert(long.subrange(0, short.len() as int) =~= short);
    }
}

/// The woven text is made of the gaps of `text` and the pieces, and of
/// nothing else: it begins with gap 0, piece `k` follows gap `k`, gap `k + 1`
/// follows piece `k`, and the last gap ends it.
pub proof fn lemma_woven_parts(
    text: Seq<char>,
    spans: Seq<(int, int)>,
    pieces: Seq<Seq<char>>,
    k: int,
)
    requires
        pieces.len() == spans.len(),
        0 <= k <= spans.len(),
    ensures
        gap_at(text, spans, pieces, 0) == 0,
        piece_at(text, spans, pieces, k) <= woven(text, spans, pieces).len(),
        woven(text, spans, pieces).subrange(
            gap_at(text, spans, pieces, k),
            piece_at(text, spans, pieces, k),
        ) == gap(text, spans, k),
        k < spans.len() ==> gap_at(text, spans, pieces, k + 1) == piece_at(text, spans, pieces, k)
            + pieces[k].len(),
        k < spans.len() ==> gap_at(text, spans, pieces, k + 1) <= woven(text, spans, pieces).len(),
        k < spans.len() ==> woven(text, spans, pieces).subrange(
            piece_at(text, spans, pieces, k),
            gap_at(text, spans, pieces, k + 1),
        ) == pieces[k],
        k == spans.len() ==> piece_at(text, spans, pieces, k) == woven(text, spans, pieces).len(),
{
    let n = spans.len() as int;
    let all = woven(text, spans, pieces);
    let head = woven_upto(text, spans, pieces, k);
    let g = gap(text, spans, k);
    let from = gap_at(text, spans, pieces, k);
    let at = piece_at(text, spans, pieces, k);
    if k < n {
        let next = woven_upto(text, spans, pieces, k + 1);
        lemma_woven_upto_grows(text, spans, pieces, k + 1, n);
        assert(next == head + g + pieces[k]);
        let begin = all.subrange(0, next.len() as int);
        assert(begin =~= next);
        assert forall|i: int| 0 <= i < g.len() implies all.subrange(from, at)[i] == g[i] by {
            assert(begin[from + i] == next[from + i]);
        }
        assert(all.subrange(from, at) =~= g);
        let to = gap_at(text, spans, pieces, k + 1);
        assert forall|i: int| 0 <= i < pieces[k].len() implies all.subrange(at, to)[i]
            == pieces[k][i] by {
            assert(begin[at + i] == next[at + i]);
        }
        assert(all.subrange(at, to) =~= pieces[k]);
    } else {
        assert(all.subrange(from, at) =~= g);
    }
}

/// The words of `text`, in order.
pub open spec fn words_of(text: Seq<char>) -> Seq<Seq<char>> {
    let spans = word_spans(text);
    Seq::new(spans.len(), |k: int| word(text, spans, k))
}

/// The gaps and the words of `text` up to word `n` make up its beginning.
proof fn lemma_text_woven_upto(text: Seq<char>, n: int)
    requires
        0 <= n <= word_spans(text).len(),
    ensures
        woven_upto(text, word_spans(text), words_of(text), n) == text.subrange(
            0,
            gap_start(word_spans(text), n),
        ),
    decreases n,
{
    let spans = word_spans(text);
    lemma_words_in_order(text);
    if n > 0 {
        lemma_text_woven_upto(text, n - 1);
        if n > 1 {
            assert(spans[n - 2].1 <= spans[n - 1].0);
        }
        assert(text.subrange(0, gap_start(spans, n - 1)) + gap(text, spans, n - 1) + words_of(
            text,
        )[n - 1] =~= text.subrange(0, gap_start(spans, n)));
    } else {
        assert(text.subrange(0, 0) =~= Seq::<char>::empty());
    }
}

/// A text is its gaps and its words, taken in turn: nothing is lost and
/// nothing is counted twice.
pub proof fn lemma_text_is_woven(text: Seq<char>)
    ensures
        woven(text, word_spans(text), words_of(text)) == text,
{
    let spans = word_spans(text);
    let n = spans.len() as int;
    lemma_words_in_order(text);
    lemma_text_woven_upto(text, n);
    assert(text.subrange(0, gap_start(spans, n)) + gap(text, spans, n) =~= text);
}

/// Every gap of the text stands unchanged in the corrected text, at the place
/// that the pieces before it leave for it.
pub proof fn lemma_gaps_stay(
    text: Seq<char>,
    dict: Seq<Seq<char>>,
    replace: spec_fn(Seq<char>) -> Seq<char>,
    k: int,
)
    requires
        0 <= k <= word_spans(text).len(),
    ensures
        ({
            let spans = word_spans(text);
            let pieces = pieces_of(text, dict, replace);
            &&& piece_at(text, spans, pieces, k) <= rewritten(text, dict, replace).len()
            &&& rewritten(text, dict, replace).subrange(
                gap_at(text, spans, pieces, k),
                piece_at(text, spans, pieces, k),
            ) == gap(text, spans, k)
        }),
{
    lemma_woven_parts(text, word_spans(text), pieces_of(text, dict, replace), k);
}

/// A word that the dictionary holds stands in the corrected text as it was
/// written.
pub proof fn lemma_known_word_stays(
    text: Seq<char>,
    dict: Seq<Seq<char>>,
    replace: spec_fn(Seq<char>) -> Seq<char>,
    k: int,
)
    requires
        0 <= k < word_spans(text).len(),
        dict_contains(dict, word(text, word_spans(text), k)),
    ensures
        ({
            let spans = word_spans(text);
            let pieces = pieces_of(text, dict, replace);
            let at = piece_at(text, spans, pieces, k);
            &&& at + word(text, spans, k).len() <= rewritten(text, dict, replace).len()
            &&& rewritten(text, dict, replace).subrange(at, at + word(text, spans, k).len())
                == word(text, spans, k)
        }),
{
    lemma_woven_parts(text, word_spans(text), pieces_of(text, dict, replace), k);
}

/// In place of a word that the dictionary does not hold, the corrected text
/// has what the strategy makes of it.
pub proof fn lemma_unknown_word_replaced(
    text: Seq<char>,
    dict: Seq<Seq<char>>,
    replace: spec_fn(Seq<char>) -> Seq<char>,
    k: int,
)
    requires
        0 <= k < word_spans(text).len(),
        !dict_contains(dict, word(text, word_spans(text), k)),
    ensures
        ({
            let spans = word_spans(text);
            let pieces = pieces_of(text, dict, replace);
            let at = piece_at(text, spans, pieces, k);
            let new = replace(word(text, spans, k));
            &&& at + new.len() <= rewritten(text, dict, replace).len()
            &&& rewritten(text, dict, replace).subrange(at, at + new.len()) == new
        }),
{
    lemma_woven_parts(text, word_spans(text), pieces_of(text, dict, replace), k);
}

/// A text whose words the dictionary holds, all of them, is left as it is.
pub proof fn lemma_known_text_stays(
    text: Seq<char>,
    dict: Seq<Seq<char>>,
    replace: spec_fn(Seq<char>) -> Seq<char>,
)
    requires
        forall|k: int|
            0 <= k < word_spans(text).len() ==> dict_contains(
                dict,
                #[trigger] word(text, word_spans(text), k),
            ),
    ensures
        rewritten(text, dict, replace) == text,
{
    assert(pieces_of(text, dict, replace) =~= words_of(text));
    lemma_text_is_woven(text);
}

} // verus!
