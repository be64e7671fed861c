//! Damerau-Levenshtein edit distance between two character sequences.
//!
//! The distance counts insertions, deletions, substitutions, and adjacent
//! transpositions as unit-cost edits. The computation fills a bordered
//! dynamic-programming grid ([`matrix::Matrix`]) according to the classic
//! recurrence with a per-character last-occurrence map, and its result is
//! proved equal to that recurrence ([`distance::distance`]).

pub mod distance;
pub mod matrix;

pub use distance::damerau_levenshtein_distance;
