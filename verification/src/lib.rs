//! A small log-scanning library: tokenizes text into lowercase words,
//! tallies word frequencies, counts lines and bytes, searches lines for a
//! case-insensitive term, and reports the most frequent words.
//!
//! All text is handled as bytes; words are maximal runs of ASCII letters,
//! digits and underscores, case-folded to lowercase.

pub mod tokenizer;
pub mod text;
pub mod counts;
pub mod report;
pub mod scanner;
pub mod args;
