//! Counts bytes, code points, grapheme clusters, words and lines in text
//! streams, split into lines at any of the seven Unicode line terminators.
pub mod counter;
pub mod error;
pub mod newline;
pub mod opt;
pub mod report;
pub mod totals;
pub mod ubufreader;
