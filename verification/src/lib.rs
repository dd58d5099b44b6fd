//! Frequency-weighted spell correction for Thai text, in the style of the
//! classic Norvig corrector: a filtered frequency dictionary, single-unit
//! edit expansion over a fixed Thai alphabet, known-word filtering, and
//! frequency-ranked candidate lists.
#![verifier::loop_isolation(false)]

pub mod thai;
pub mod words;
pub mod checker;
pub mod corpus;
pub mod dict;
pub mod edits;
pub mod laws;
pub mod numlit;

pub use checker::NorvigSpellChecker;
pub use corpus::parse_corpus_line;
pub use corpus::tnc_freq_path;
pub use numlit::is_numeric_literal;
pub use thai::is_thai_and_not_num;
pub use thai::ThaiWordFilter;
pub use thai::WordFilter;
