//! Line and byte utilities: collapsing runs of adjacent equal lines (with
//! optional occurrence counts), counting lines, words, bytes and characters,
//! and parsing the positive counts that a prefix tool takes.

pub mod format;
pub mod head;
pub mod laws;
pub mod text;
pub mod uniq;
pub mod wc;
