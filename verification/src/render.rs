//! Support for rendering: wrapping a node label to a bounded column
//! width.  A label is split at whitespace into words; words are joined
//! by single spaces, and a newline replaces the space after any word
//! that pushes the running count past the width (the count restarts at
//! zero there).

use vstd::prelude::*;
use vstd::string::*;
use crate::ast::names_view;

verus! {

/// Whitespace for label splitting: space, tab, newline, carriage
/// return.
pub open spec fn is_ws(c: char) -> bool {
    c == ' ' || c == '\t' || c == '\n' || c == '\r'
}

/// The first position at or after `pos` holding whitespace (or the end
/// of the text).
pub open spec fn word_end(s: Seq<char>, pos: int) -> int
    decreases s.len() - pos when 0 <= pos <= s.len()
{
    if pos < s.len() && !is_ws(s[pos]) {
        word_end(s, pos + 1)
    } else {
        pos
    }
}

pub proof fn lemma_word_end(s: Seq<char>, pos: int)
    requires
        0 <= pos <= s.len(),
    ensures
        pos <= word_end(s, pos) <= s.len(),
        pos < s.len() && !is_ws(s[pos]) ==> word_end(s, pos) > pos,
    decreases s.len() - pos,
{
    if pos < s.len() && !is_ws(s[pos]) {
        lemma_word_end(s, pos + 1);
    }
}

/// The words of the text from `pos` on: maximal runs of non-whitespace
/// characters, in order.
pub open spec fn words(s: Seq<char>, pos: int) -> Seq<Seq<char>>
    decreases s.len() - pos when 0 <= pos <= s.len() via words_dec
{
    if pos >= s.len() {
        Seq::<Seq<char>>::empty()
    } else if is_ws(s[pos]) {
        words(s, pos + 1)
    } else {
        seq![s.subrange(pos, word_end(s, pos))] + words(s, word_end(s, pos))
    }
}

#[via_fn]
proof fn words_dec(s: Seq<char>, pos: int) {
    lemma_word_end(s, pos);
}

/// A bound on what the words can add to a label: each word's length
/// plus one separator.
pub open spec fn words_cost(ws: Seq<Seq<char>>) -> nat
    decreases ws.len(),
{
    if ws.len() == 0 {
        0
    } else {
        ws[0].len() + 1 + words_cost(ws.drop_first())
    }
}

pub proof fn lemma_words_cost(s: Seq<char>, pos: int)
    requires
        0 <= pos <= s.len(),
    ensures
        words_cost(words(s, pos)) <= 2 * (s.len() - pos),
    decreases s.len() - pos,
{
    lemma_word_end(s, pos);
    if pos >= s.len() {
    } else if is_ws(s[pos]) {
        lemma_words_cost(s, pos + 1);
    } else {
        let e = word_end(s, pos);
        lemma_words_cost(s, e);
        assert(words(s, pos).drop_first() =~= words(s, e));
    }
}

/// Fold the words into the label: append each word, then a space, or a
/// newline (and a restarted count) once the running count passes the
/// width.
pub open spec fn spec_wrap(ws: Seq<Seq<char>>, label: Seq<char>, count: int, width: int) -> Seq<
    char,
>
    decreases ws.len(),
{
    if ws.len() == 0 {
        label
    } else {
        let l2 = label + ws[0];
        let c2 = count + ws[0].len() + 1;
        if c2 > width {
            spec_wrap(ws.drop_first(), l2.push('\n'), 0, width)
        } else {
            spec_wrap(ws.drop_first(), l2.push(' '), c2, width)
        }
    }
}

/// The wrapped label: the words of `s` folded from an empty label, with
/// the final trailing separator removed.
pub open spec fn spec_split_label(s: Seq<char>, width: int) -> Seq<char> {
    let full = spec_wrap(words(s, 0), Seq::<char>::empty(), 0, width);
    if full.len() > 0 {
        full.drop_last()
    } else {
        full
    }
}

fn is_ws_char(c: char) -> (b: bool)
    ensures
        b == is_ws(c),
{
    c == ' ' || c == '\t' || c == '\n' || c == '\r'
}

fn scan_word_end(s: &str, pos: usize) -> (r: usize)
    requires
        pos <= s@.len(),
    ensures
        r == word_end(s@, pos as int),
        pos <= r <= s@.len(),
{
    let n = s.unicode_len();
    let mut i = pos;
    while i < n && !is_ws_char(s.get_char(i))
        invariant
            pos <= i <= n,
            n == s@.len(),
            word_end(s@, pos as int) == word_end(s@, i as int),
        decreases n - i,
    {
        i = i + 1;
    }
    i
}

/// Wrap a label to a bounded column width, exactly as `spec_split_label`
/// describes.
#[verifier::loop_isolation(false)]
pub fn split_label(s: &str, width: usize) -> (r: String)
    requires
        2 * s@.len() + 1 <= usize::MAX,
    ensures
        r@ == spec_split_label(s@, width as int),
{
    let n = s.unicode_len();
    let mut ws: Vec<String> = Vec::new();
    let mut pos: usize = 0;
    proof {
        assert(names_view(ws@) + words(s@, 0) =~= words(s@, 0));
    }
    while pos < n
        invariant
            0 <= pos <= n,
            words(s@, 0) == names_view(ws@) + words(s@, pos as int),
        decreases n - pos,
    {
        if is_ws_char(s.get_char(pos)) {
            pos = pos + 1;
        } else {
            let e = scan_word_end(s, pos);
            proof {
                lemma_word_end(s@, pos as int);
            }
            let ghost prev = ws@;
            ws.push(s.substring_char(pos, e).to_owned());
            proof {
                assert(names_view(ws@) =~= names_view(prev) + seq![
                    s@.subrange(pos as int, e as int),
                ]);
                assert(names_view(prev) + (seq![s@.subrange(pos as int, e as int)] + words(
                    s@,
                    e as int,
                )) =~= names_view(ws@) + words(s@, e as int));
            }
            pos = e;
        }
    }
    proof {
        assert(names_view(ws@) + Seq::<Seq<char>>::empty() =~= names_view(ws@));
        assert(words(s@, 0) == names_view(ws@));
        lemma_words_cost(s@, 0);
    }
    let ghost wsv = names_view(ws@);
    let mut label = String::new();
    let mut count: usize = 0;
    let mut k: usize = 0;
    proof {
        assert(wsv.subrange(0, wsv.len() as int) =~= wsv);
    }
    while k < ws.len()
        invariant
            0 <= k <= ws.len(),
            wsv == names_view(ws@),
            spec_wrap(wsv, Seq::<char>::empty(), 0, width as int) == spec_wrap(
                wsv.subrange(k as int, wsv.len() as int),
                label@,
                count as int,
                width as int,
            ),
            count <= label@.len() + 1,
            label@.len() + words_cost(wsv.subrange(k as int, wsv.len() as int)) <= 2 * s@.len(),
        decreases ws@.len() - k,
    {
        let ghost rem = wsv.subrange(k as int, wsv.len() as int);
        proof {
            assert(rem[0] == wsv[k as int]);
            assert(rem.drop_first() =~= wsv.subrange(k as int + 1, wsv.len() as int));
            assert(words_cost(rem) == rem[0].len() + 1 + words_cost(rem.drop_first()));
        }
        let wlen = ws[k].unicode_len();
        let ghost label0 = label@;
        label.append(ws[k].as_str());
        count = count + wlen + 1;
        if count > width {
            label.append("\n");
            proof {
                reveal_strlit("\n");
                assert(label@ =~= (label0 + rem[0]).push('\n'));
            }
            count = 0;
        } else {
            label.append(" ");
            proof {
                reveal_strlit(" ");
                assert(label@ =~= (label0 + rem[0]).push(' '));
            }
        }
        k = k + 1;
    }
    proof {
        assert(wsv.subrange(wsv.len() as int, wsv.len() as int) =~= Seq::<Seq<char>>::empty());
    }
    let llen = label.unicode_len();
    if llen > 0 {
        let r = label.as_str().substring_char(0, llen - 1).to_owned();
        proof {
            assert(r@ =~= label@.drop_last());
        }
        r
    } else {
        label
    }
}

} // verus!
