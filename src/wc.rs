use vstd::prelude::*;
use vstd::string::StringSliceAdditionalSpecFns;

use crate::text::{chars_of, is_space, is_space_char};

verus! {

/// Which totals the counting tool prints, and for which files.
pub struct Config {
    pub files: Vec<String>,
    pub lines: bool,
    pub words: bool,
    pub bytes: bool,
    pub chars: bool,
}

/// The totals for one input.
#[derive(Debug, PartialEq, Eq)]
pub struct FileInfo {
    pub num_lines: usize,
    pub num_words: usize,
    pub num_bytes: usize,
    pub num_chars: usize,
}

/// Number of newline characters in `s`.
pub open spec fn newline_count(s: Seq<char>) -> nat
    decreases s.len(),
{
    if s.len() == 0 {
        0
    } else {
        newline_count(s.drop_last()) + if s.last() == '\n' { 1nat } else { 0nat }
    }
}

/// Whether a word starts at position `i` of `s`: a character that is not
/// white space, at the start or after white space.
pub open spec fn starts_word(s: Seq<char>, i: int) -> bool {
    !is_space(s[i]) && (i == 0 || is_space(s[i - 1]))
}

/// Number of words of `s`: maximal runs of characters that are not white space.
pub open spec fn word_count(s: Seq<char>) -> nat
    decreases s.len(),
{
    if s.len() == 0 {
        0
    } else {
        word_count(s.drop_last()) + if starts_word(s, s.len() - 1) { 1nat } else { 0nat }
    }
}

/// Counts the lines (newline characters), words, bytes of UTF-8 and
/// characters of `text`.
pub fn count(text: &str) -> (info: FileInfo)
    ensures
        info.num_lines == newline_count(text@),
        info.num_words == word_count(text@),
        info.num_bytes == text.spec_bytes().len() as usize,
        info.num_chars == text@.len(),
{
    let cs = chars_of(text);
    let mut num_lines: usize = 0;
    let mut num_words: usize = 0;
    let mut i: usize = 0;
    while i < cs.len()
        invariant
            i <= cs@.len(),
            cs@ == text@,
            num_lines == newline_count(cs@.take(i as int)),
            num_words == word_count(cs@.take(i as int)),
            num_lines <= i,
            num_words <= i,
        decreases cs@.len() - i,
    {
        let ghost next = cs@.take(i + 1);
        assert(next.drop_last() =~= cs@.take(i as int));
        assert(starts_word(next, i as int) == starts_word(cs@, i as int));
        let c = cs[i];
        if c == '\n' {
            num_lines = num_lines + 1;
        }
        if !is_space_char(c) && (i == 0 || is_space_char(cs[i - 1])) {
            num_words = num_words + 1;
        }
        i = i + 1;
    }
    assert(cs@.take(cs@.len() as int) =~= cs@);
    FileInfo { num_lines, num_words, num_bytes: text.len(), num_chars: cs.len() }
}

} // verus!
