//! Character-level scanning over the source text: spaces, line ends and
//! newline runs, each with a specification function and a verified scanner.

use vstd::prelude::*;

verus! {

/// A horizontal space character: indentation and keyword separation.
pub open spec fn is_line_space(c: char) -> bool {
    c == ' ' || c == '\t'
}

/// The first position at or after `pos` holding no space or tab (or the
/// end of the text).
pub open spec fn skip_spaces(s: Seq<char>, pos: int) -> int
    decreases s.len() - pos when 0 <= pos <= s.len()
{
    if pos < s.len() && is_line_space(s[pos]) {
        skip_spaces(s, pos + 1)
    } else {
        pos
    }
}

pub proof fn lemma_skip_spaces(s: Seq<char>, pos: int)
    requires
        0 <= pos <= s.len(),
    ensures
        pos <= skip_spaces(s, pos) <= s.len(),
    decreases s.len() - pos,
{
    if pos < s.len() && is_line_space(s[pos]) {
        lemma_skip_spaces(s, pos + 1);
    }
}

/// The first position at or after `pos` holding a newline (or the end
/// of the text).
pub open spec fn line_end(s: Seq<char>, pos: int) -> int
    decreases s.len() - pos when 0 <= pos <= s.len()
{
    if pos < s.len() && s[pos] != '\n' {
        line_end(s, pos + 1)
    } else {
        pos
    }
}

pub proof fn lemma_line_end(s: Seq<char>, pos: int)
    requires
        0 <= pos <= s.len(),
    ensures
        pos <= line_end(s, pos) <= s.len(),
    decreases s.len() - pos,
{
    if pos < s.len() && s[pos] != '\n' {
        lemma_line_end(s, pos + 1);
    }
}

/// The first position at or after `pos` holding no newline (or the end
/// of the text).
pub open spec fn skip_newlines(s: Seq<char>, pos: int) -> int
    decreases s.len() - pos when 0 <= pos <= s.len()
{
    if pos < s.len() && s[pos] == '\n' {
        skip_newlines(s, pos + 1)
    } else {
        pos
    }
}

pub proof fn lemma_skip_newlines(s: Seq<char>, pos: int)
    requires
        0 <= pos <= s.len(),
    ensures
        pos <= skip_newlines(s, pos) <= s.len(),
    decreases s.len() - pos,
{
    if pos < s.len() && s[pos] == '\n' {
        lemma_skip_newlines(s, pos + 1);
    }
}

/// Whether the character is a space or tab.
pub fn is_space_char(c: char) -> (b: bool)
    ensures
        b == is_line_space(c),
{
    c == ' ' || c == '\t'
}

pub fn scan_spaces(s: &str, pos: usize) -> (r: usize)
    requires
        pos <= s@.len(),
    ensures
        r == skip_spaces(s@, pos as int),
        pos <= r <= s@.len(),
{
    let n = s.unicode_len();
    let mut i = pos;
    while i < n && is_space_char(s.get_char(i))
        invariant
            pos <= i <= n,
            n == s@.len(),
            skip_spaces(s@, pos as int) == skip_spaces(s@, i as int),
        decreases n - i,
    {
        i = i + 1;
    }
    i
}

pub fn scan_line_end(s: &str, pos: usize) -> (r: usize)
    requires
        pos <= s@.len(),
    ensures
        r == line_end(s@, pos as int),
        pos <= r <= s@.len(),
{
    let n = s.unicode_len();
    let mut i = pos;
    while i < n && s.get_char(i) != '\n'
        invariant
            pos <= i <= n,
            n == s@.len(),
            line_end(s@, pos as int) == line_end(s@, i as int),
        decreases n - i,
    {
        i = i + 1;
    }
    i
}

pub fn scan_newlines(s: &str, pos: usize) -> (r: usize)
    requires
        pos <= s@.len(),
    ensures
        r == skip_newlines(s@, pos as int),
        pos <= r <= s@.len(),
{
    let n = s.unicode_len();
    let mut i = pos;
    while i < n && s.get_char(i) == '\n'
        invariant
            pos <= i <= n,
            n == s@.len(),
            skip_newlines(s@, pos as int) == skip_newlines(s@, i as int),
        decreases n - i,
    {
        i = i + 1;
    }
    i
}

} // verus!
