//! Dictionary-based text correction: scan a text for words, look each one up
//! in a word list, and replace the unknown ones through a correction
//! strategy. Everything between the words stays as it is.
//!
//! - [`tokens`]: what a word is, and where the words of a text are.
//! - [`dictionary`]: looking a word up, upper and lower case taken as the same.
//! - [`corrector`]: the strategy interface, and marking as a strategy.
//! - [`autocorrect`]: the nearest dictionary word as a strategy.
//! - [`rewrite`]: putting the pieces together into the corrected text.
//! - [`mode`]: the strategies that can be chosen by name.
//! - [`casing`], [`distance`], [`text`]: upper case, edit distance, and
//!   strings as sequences of characters.

pub mod autocorrect;
pub mod casing;
pub mod corrector;
pub mod dictionary;
pub mod distance;
pub mod mode;
pub mod rewrite;
pub mod text;
pub mod tokens;

pub use autocorrect::AutoCorrector;
pub use corrector::{Corrector, MarkCorrector};
pub use rewrite::{correct_string, mark_corrected};
