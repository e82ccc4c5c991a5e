//! The ways of correcting that can be chosen by name.

use vstd::prelude::*;
use vstd::string::StringExecFns;
use crate::autocorrect::{nearest_distance, nearest_word, substitution_note, AutoCorrector};
use crate::corrector::MarkCorrector;
use crate::rewrite::{correct_string, mark_strategy, rewritten, strategy};

verus! {

/// A way of correcting the words that the dictionary does not hold.
#[derive(Clone, Copy, Debug, PartialEq, Eq, Structural)]
pub enum Mode {
    /// The word in upper case between `>>` and `<<`.
    Mark,
    /// The nearest word of the dictionary.
    Auto,
    /// The nearest word of the dictionary, with the word it replaces and the
    /// distance between them.
    AutoShow,
}

/// The mode that goes by `name`, if there is one.
pub open spec fn mode_named(name: Seq<char>) -> Option<Mode> {
    if name == seq!['m', 'a', 'r', 'k'] {
        Some(Mode::Mark)
    } else if name == seq!['a', 'u', 't', 'o'] {
        Some(Mode::Auto)
    } else if name == seq!['a', 'u', 't', 'o', '_', 's', 'h', 'o', 'w'] {
        Some(Mode::AutoShow)
    } else {
        None
    }
}

/// Correcting by the nearest word of `dict` as a function from words to
/// replacements.
pub open spec fn nearest_strategy(
    dict: Seq<Seq<char>>,
    show: bool,
) -> spec_fn(Seq<char>) -> Seq<char> {
    |w: Seq<char>|
        if show {
            substitution_note(w, nearest_word(dict, w), nearest_distance(dict, w) as nat)
        } else {
            nearest_word(dict, w)
        }
}

/// What `text` becomes when it is corrected against `dict` in `mode`.
pub open spec fn corrected_in(text: Seq<char>, dict: Seq<Seq<char>>, mode: Mode) -> Seq<char> {
    match mode {
        Mode::Mark => rewritten(text, dict, mark_strategy(seq!['>', '>'], seq!['<', '<'])),
        Mode::Auto => rewritten(text, dict, nearest_strategy(dict, false)),
        Mode::AutoShow => rewritten(text, dict, nearest_strategy(dict, true)),
    }
}

impl Mode {
    /// Finds the mode by its name: `mark`, `auto` or `auto_show`.
    pub fn from_name(name: &str) -> (mode: Option<Mode>)
        ensures
            mode == mode_named(name@),
    {
        proof {
            reveal_strlit("mark");
            reveal_strlit("auto");
            reveal_strlit("auto_show");
            assert("mark"@ =~= seq!['m', 'a', 'r', 'k']);
            assert("auto"@ =~= seq!['a', 'u', 't', 'o']);
            assert("auto_show"@ =~= seq!['a', 'u', 't', 'o', '_', 's', 'h', 'o', 'w']);
        }
        let name = String::from_str(name);
        if name == String::from_str("mark") {
            Some(Mode::Mark)
        } else if name == String::from_str("auto") {
            Some(Mode::Auto)
        } else if name == String::from_str("auto_show") {
            Some(Mode::AutoShow)
        } else {
            None
        }
    }
}

/// Corrects `text` against `dict` in the given mode. The nearest words are
/// looked for in `dict` itself.
pub fn correct_in_mode(text: &String, dict: &Vec<String>, mode: Mode) -> (corrected: String)
    ensures
        corrected@ == corrected_in(text@, dict.deep_view(), mode),
{
    match mode {
        Mode::Mark => {
            let mut marker = MarkCorrector::new(">>", "<<");
            proof {
                reveal_strlit(">>");
                reveal_strlit("<<");
                assert(">>"@ =~= seq!['>', '>']);
                assert("<<"@ =~= seq!['<', '<']);
                assert(strategy(marker) =~= mark_strategy(seq!['>', '>'], seq!['<', '<']));
            }
            correct_string(text, dict, &mut marker)
        },
        Mode::Auto => {
            let mut nearest = AutoCorrector::new(dict, false);
            assert(strategy(nearest) =~= nearest_strategy(dict.deep_view(), false));
            correct_string(text, dict, &mut nearest)
        },
        Mode::AutoShow => {
            let mut nearest = AutoCorrector::new(dict, true);
            assert(strategy(nearest) =~= nearest_strategy(dict.deep_view(), true));
            correct_string(text, dict, &mut nearest)
        },
    }
}

} // verus!
