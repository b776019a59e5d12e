//! A spelling corrector: a frequency table built by tokenizing a corpus, an
//! exhaustive generator of one- and two-edit candidate strings over the
//! 26-letter alphabet, and a corrector that proposes the highest-frequency
//! vocabulary word within two edits.

pub mod corrector;
pub mod edits;
pub mod letters;
pub mod table;
pub mod tokenizer;
