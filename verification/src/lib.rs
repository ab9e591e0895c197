//! Ranking and retrieval core of a shell-history search: a command log, the
//! filter that guards it, the scored view built from it and the substring
//! query over that view.
//!
//! The factors of a scored row are exact fractions. The rank of a row is a
//! weighted sum of its factors with real coefficients; the caller takes that
//! sum and hands the library, for each row, an integer ordered as the sums are.

pub mod text;
pub mod command;
pub mod scoring;
pub mod history;
pub mod rebuild;
pub mod retrieval;
pub mod laws;
