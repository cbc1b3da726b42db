//! Similarity of short texts, robust to typos, word order, punctuation and script.
//!
//! A text is transliterated to ASCII, lower-cased and split into words. Two
//! words match when one contains the other and their lengths are close, or
//! when their letter and digit counts are close. The score is the number of
//! matching pairs over the average number of words long enough to compare,
//! at most one, kept as an exact fraction.

pub mod compare;
pub mod histogram;
pub mod laws;
pub mod matcher;
pub mod text;

pub use compare::{Score, ThreeSetCompare};
