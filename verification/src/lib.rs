//! Turning English number-word phrases into integers.
//!
//! Two interpreters share the same word lexicons but read a phrase
//! differently: the concatenative one assembles decimal digit groups side
//! by side ("twenty oh five" is 2005), while the additive one sums true
//! arithmetic magnitudes ("twenty twenty" is 40).  A scanner finds runs of
//! number words inside free text and rewrites each run as its
//! concatenative value, leaving everything else untouched.

pub mod chars;
pub mod lexicon;
pub mod tokenize;
pub mod interp;
pub mod render;
pub mod scan;
pub mod laws;

pub use interp::{words_to_number_concat, words_to_number_additive};
pub use scan::{replace_number_words, scan_and_replace};
