use spellcheck::autocorrect::AutoCorrector;
use spellcheck::corrector::{Corrector, MarkCorrector};
use spellcheck::dictionary::{contains, upper_words};
use spellcheck::mode::{correct_in_mode, Mode};
use spellcheck::rewrite::{correct_string, mark_corrected, weave};
use spellcheck::text::chars_of;
use spellcheck::tokens::{find_words, Span};

fn word_list(list: &[&str]) -> Vec<String> {
    list.iter().map(|w| w.to_string()).collect()
}

/// Puts nothing in place of a word.
struct Eraser;

impl Corrector for Eraser {
    fn correct_word(&mut self, _word: &str) -> String {
        String::new()
    }
}

/// Puts the word itself, reversed and in brackets, in its place.
struct Reverser;

impl Corrector for Reverser {
    fn correct_word(&mut self, word: &str) -> String {
        format!("[{}]", word.chars().rev().collect::<String>())
    }
}

/// The gaps of a text: what is left when the words are taken out.
fn gaps_of(text: &str) -> Vec<String> {
    let chars = chars_of(text);
    let spans = find_words(&chars);
    let mut gaps = Vec::new();
    let mut last = 0;
    for span in &spans {
        gaps.push(chars[last..span.start].iter().collect());
        last = span.end;
    }
    gaps.push(chars[last..].iter().collect());
    gaps
}

#[test]
fn contains_ignores_case() {
    let dict = word_list(&["APPLE", "Banana", "onion"]);
    assert!(contains(&dict, "apple"));
    assert!(contains(&dict, "APPLE"));
    assert!(contains(&dict, "aPpLe"));
    assert!(contains(&dict, "BANANA"));
    assert!(contains(&dict, "Onion"));
    assert!(!contains(&dict, "grape"));
    assert!(!contains(&dict, "appl"));
    assert!(!contains(&dict, "apples"));
    assert!(!contains(&dict, ""));
}

#[test]
fn empty_dictionary_contains_nothing() {
    let dict: Vec<String> = Vec::new();
    assert!(!contains(&dict, "apple"));
    assert!(!contains(&dict, ""));
}

#[test]
fn upper_words_keeps_order() {
    let lines = word_list(&["apple", "Banana", "CARROT", "it's", "straße"]);
    assert_eq!(
        upper_words(&lines),
        word_list(&["APPLE", "BANANA", "CARROT", "IT'S", "STRASSE"])
    );
    assert_eq!(upper_words(&Vec::new()), Vec::<String>::new());
}

#[test]
fn weave_puts_pieces_between_gaps() {
    let text = chars_of("one, two; three.");
    let spans = vec![
        Span { start: 0, end: 3 },
        Span { start: 5, end: 8 },
        Span { start: 10, end: 15 },
    ];
    let pieces = word_list(&["1", "", "three and more"]);
    assert_eq!(weave(&text, &spans, &pieces), "1, ; three and more.");
}

#[test]
fn weave_without_spans_copies_text() {
    let text = chars_of("no change");
    assert_eq!(weave(&text, &Vec::new(), &Vec::new()), "no change");
    assert_eq!(weave(&Vec::new(), &Vec::new(), &Vec::new()), "");
}

#[test]
fn weave_takes_empty_and_touching_spans() {
    let text = chars_of("abcd");
    let spans = vec![
        Span { start: 0, end: 0 },
        Span { start: 1, end: 2 },
        Span { start: 2, end: 4 },
    ];
    let pieces = word_list(&["<", "B", "CD"]);
    assert_eq!(weave(&text, &spans, &pieces), "<aBCD");
}

#[test]
fn erasing_words_leaves_gaps() {
    let dict: Vec<String> = Vec::new();
    let text = String::from("  Hello, world! 42 isn't it?\n");
    let corrected = correct_string(&text, &dict, &mut Eraser);
    assert_eq!(corrected, "  , ! 42  ?\n");
    assert_eq!(corrected, gaps_of(&text).concat());
}

#[test]
fn gaps_stay_in_order_and_content() {
    let dict = word_list(&["HELLO"]);
    let text = String::from("\t hello -- wurld!!  g'day 007 ");
    let corrected = correct_string(&text, &dict, &mut Reverser);
    assert_eq!(corrected, "\t hello -- [dlruw]!!  [yad'g] 007 ");
    let gaps = gaps_of(&text);
    assert_eq!(gaps, vec!["\t ", " -- ", "!!  ", " 007 "]);
    let mut at = 0;
    for gap in &gaps {
        let found = corrected[at..].find(gap.as_str()).unwrap();
        at += found + gap.len();
    }
}

#[test]
fn known_words_keep_their_casing() {
    let dict = word_list(&["apple", "ONION", "Don't"]);
    let text = String::from("Apple oNiOn DON'T apple");
    assert_eq!(correct_string(&text, &dict, &mut Eraser), "Apple oNiOn DON'T apple");
    assert_eq!(correct_string(&text, &dict, &mut Reverser), "Apple oNiOn DON'T apple");
}

#[test]
fn unknown_words_give_way_to_replacement() {
    let dict = word_list(&["THE"]);
    let text = String::from("the quick fox");
    assert_eq!(correct_string(&text, &dict, &mut Reverser), "the [kciuq] [xof]");
    let mut marker = MarkCorrector::new("<", ">");
    assert_eq!(correct_string(&text, &dict, &mut marker), "the <QUICK> <FOX>");
}

#[test]
fn corrects_empty_text() {
    let dict = word_list(&["A"]);
    assert_eq!(correct_string(&String::new(), &dict, &mut Reverser), "");
    assert_eq!(mark_corrected(&String::new(), &dict), "");
}

#[test]
fn corrects_text_that_is_one_word() {
    let dict = word_list(&["A"]);
    assert_eq!(correct_string(&String::from("word"), &dict, &mut Reverser), "[drow]");
    assert_eq!(correct_string(&String::from("a"), &dict, &mut Reverser), "a");
}

#[test]
fn letters_outside_ascii_are_never_changed() {
    let dict: Vec<String> = Vec::new();
    let text = String::from("café naïve 日本語");
    assert_eq!(mark_corrected(&text, &dict), "**CAF**é **NA**ï**VE** 日本語");
}

#[test]
fn same_text_gives_same_correction() {
    let dict = word_list(&["ALL", "BASE", "ARE", "YOUR", "US"]);
    let text = String::from("All your bass are belong 2 us!!");
    let mut nearest = AutoCorrector::new(&dict, true);
    let first = correct_string(&text, &dict, &mut nearest);
    let second = correct_string(&text, &dict, &mut nearest);
    assert_eq!(first, second);
    let mut marker = MarkCorrector::new(">>", "<<");
    let before = marker.correct_word("bass");
    marker.correct_word("other");
    assert_eq!(marker.correct_word("bass"), before);
}

#[test]
fn corrector_keeps_its_own_word_list() {
    let mut dict = word_list(&["BASE"]);
    let nearest = AutoCorrector::new(&dict, false);
    dict.clear();
    dict.push("BASS".to_string());
    assert_eq!(nearest.closest_word("bass"), ("BASE".to_string(), 1));
}

#[test]
fn mode_names() {
    assert_eq!(Mode::from_name("mark"), Some(Mode::Mark));
    assert_eq!(Mode::from_name("auto"), Some(Mode::Auto));
    assert_eq!(Mode::from_name("auto_show"), Some(Mode::AutoShow));
    assert_eq!(Mode::from_name(""), None);
    assert_eq!(Mode::from_name("Mark"), None);
    assert_eq!(Mode::from_name("auto "), None);
    assert_eq!(Mode::from_name("autoshow"), None);
    assert_eq!(Mode::from_name("show"), None);
}

#[test]
fn corrects_in_each_mode() {
    let dict = word_list(&["ALL", "BASE", "ARE", "YOUR", "US"]);
    let text = String::from("All your bass are belong 2 us!!");
    assert_eq!(
        correct_in_mode(&text, &dict, Mode::Mark),
        "All your >>BASS<< are >>BELONG<< 2 us!!"
    );
    assert_eq!(
        correct_in_mode(&text, &dict, Mode::Auto),
        "All your BASE are ALL 2 us!!"
    );
    assert_eq!(
        correct_in_mode(&text, &dict, Mode::AutoShow),
        "All your (bass:BASE:1) are (belong:ALL:5) 2 us!!"
    );
}

#[test]
fn corrects_against_empty_dictionary_in_each_mode() {
    let dict: Vec<String> = Vec::new();
    let text = String::from("to be");
    assert_eq!(correct_in_mode(&text, &dict, Mode::Mark), ">>TO<< >>BE<<");
    assert_eq!(correct_in_mode(&text, &dict, Mode::Auto), " ");
    assert_eq!(
        correct_in_mode(&text, &dict, Mode::AutoShow),
        format!("(to::{0}) (be::{0})", usize::MAX)
    );
}
