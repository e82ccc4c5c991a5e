use spellcheck::autocorrect::AutoCorrector;
use spellcheck::corrector::{Corrector, MarkCorrector};
use spellcheck::rewrite::{correct_string, mark_corrected};

fn words(list: &[&str]) -> Vec<String> {
    list.iter().map(|w| w.to_string()).collect()
}

#[test]
fn marks_unknown_word_between_delimiters() {
    let dict = words(&["APPLE", "BANANA", "ONION"]);
    let mut marker = MarkCorrector::new(">>", "<<");
    let text = String::from("grape     apple  \n onion\n");
    assert_eq!(
        correct_string(&text, &dict, &mut marker),
        ">>GRAPE<<     apple  \n onion\n"
    );
}

#[test]
fn replaces_unknown_words_by_nearest_entries() {
    let dict = words(&["ALL", "BASE", "ARE", "YOUR", "US"]);
    let mut nearest = AutoCorrector::new(&dict, false);
    let text = String::from("All your bass are belong 2 us!!");
    assert_eq!(
        correct_string(&text, &dict, &mut nearest),
        "All your BASE are ALL 2 us!!"
    );
}

#[test]
fn shows_substitutions_in_text() {
    let dict = words(&["ALL", "BASE", "ARE", "YOUR", "US"]);
    let mut nearest = AutoCorrector::new(&dict, true);
    let text = String::from("All your bass are belong 2 us!!");
    assert_eq!(
        correct_string(&text, &dict, &mut nearest),
        "All your (bass:BASE:1) are (belong:ALL:5) 2 us!!"
    );
}

#[test]
fn shows_substitution_with_distance() {
    let dict = words(&["ALL", "BASE", "ARE", "YOUR", "US"]);
    let mut nearest = AutoCorrector::new(&dict, true);
    assert_eq!(nearest.correct_word("bass"), "(bass:BASE:1)");
    assert_eq!(nearest.correct_word("us"), "(us:US:0)");
    assert_eq!(nearest.correct_word("belong"), "(belong:ALL:5)");
}

#[test]
fn gives_nearest_word_alone() {
    let dict = words(&["ALL", "BASE", "ARE", "YOUR", "US"]);
    let mut nearest = AutoCorrector::new(&dict, false);
    assert_eq!(nearest.correct_word("bass"), "BASE");
    assert_eq!(nearest.correct_word("us"), "US");
    assert_eq!(nearest.correct_word("belong"), "ALL");
}

#[test]
fn empty_dictionary_gives_sentinel() {
    let dict: Vec<String> = Vec::new();
    let nearest = AutoCorrector::new(&dict, false);
    assert_eq!(nearest.closest_word("bass"), (String::new(), usize::MAX));
    assert_eq!(nearest.closest_word("belong"), (String::new(), usize::MAX));
}

#[test]
fn empty_dictionary_replacement_reflects_sentinel() {
    let dict: Vec<String> = Vec::new();
    let mut plain = AutoCorrector::new(&dict, false);
    assert_eq!(plain.correct_word("bass"), "");
    let mut showing = AutoCorrector::new(&dict, true);
    assert_eq!(
        showing.correct_word("bass"),
        format!("(bass::{})", usize::MAX)
    );
}

#[test]
fn closest_word_in_small_dictionary() {
    let dict = words(&["ALL", "BASE", "ARE", "YOUR", "US"]);
    let nearest = AutoCorrector::new(&dict, false);
    assert_eq!(nearest.closest_word("bass"), ("BASE".to_string(), 1));
    assert_eq!(nearest.closest_word("belong"), ("ALL".to_string(), 5));
}

#[test]
fn closest_word_among_single_letters() {
    let dict = words(&["A", "B", "C"]);
    let nearest = AutoCorrector::new(&dict, false);
    assert_eq!(nearest.closest_word("a"), ("A".to_string(), 0));
    assert_eq!(nearest.closest_word("aa"), ("A".to_string(), 1));
    assert_eq!(nearest.closest_word("bbb"), ("B".to_string(), 2));
    assert_eq!(nearest.closest_word("zz"), ("A".to_string(), 2));
}

#[test]
fn mark_corrected_uses_asterisks() {
    let dict = words(&["APPLE", "BANANA", "ONION"]);
    let text = String::from("grape     apple  \n onion\n");
    assert_eq!(
        mark_corrected(&text, &dict),
        "**GRAPE**     apple  \n onion\n"
    );
}

#[test]
fn mark_corrected_leaves_text_without_words() {
    let dict = words(&["apple", "banana", "onion"]);
    let text = String::from(" 12  3456 . ,,  78 0.123");
    assert_eq!(mark_corrected(&text, &dict), " 12  3456 . ,,  78 0.123");
}

#[test]
fn mark_corrected_marks_each_unknown_word() {
    let dict = words(&["ALL", "BASE", "ARE", "YOUR", "US"]);
    let text = String::from("All your bass are belong 2 us!!");
    assert_eq!(
        mark_corrected(&text, &dict),
        "All your **BASS** are **BELONG** 2 us!!"
    );
}

#[test]
fn mark_corrector_wraps_upper_case() {
    let mut marker = MarkCorrector::new(">>", "<<");
    assert_eq!(marker.correct_word("incorrect"), ">>INCORRECT<<");
    assert_eq!(marker.correct_word("blergh"), ">>BLERGH<<");
    let mut fixme = MarkCorrector::new("", "!fixme");
    assert_eq!(fixme.correct_word("incorrect"), "INCORRECT!fixme");
    assert_eq!(fixme.correct_word("blergh"), "BLERGH!fixme");
}
