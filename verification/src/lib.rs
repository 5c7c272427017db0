//! Fuzzy subsequence matching and relevance scoring.
//!
//! Given a short query string and a longer candidate string (typically a
//! file-system path), [`scoring::calculate_score`] computes a signed rank:
//! lower ranks mean better matches, so sorting candidates ascending by rank
//! lists the best matches first.

pub mod char_match;
pub mod laws;
pub mod matching;
pub mod model;
pub mod scoring;
