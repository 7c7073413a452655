//! The grammar of the language, written as total specification
//! functions over the character sequence of the source text.  The
//! executable parser is proved to return exactly what these functions
//! describe, so they are the single definition of what parses and of
//! where a failed parse points (as a character offset).
//!
//! Each significant line has the shape
//! `<indentation><KEYWORD><one space><free text><newlines or end>`.
//! Exactly one space (or tab) separates the keyword from the free
//! text; any further character, space included, belongs to the free
//! text, which runs to the end of the line.
//!
//! Siblings share one indentation column: the scenarios of a group all
//! stand at the column the first one establishes, and so do the
//! top-level entries.  A scenario under a group may leave the group
//! only by returning exactly to the group's own column (where the next
//! top-level entry would stand); at any other column it is a terminal
//! error, pointing at its keyword.

use vstd::prelude::*;
use crate::ast::{ClauseV, StepV, GroupV, EntryV, AstV, entry_indent};
use crate::text::{skip_spaces, line_end, skip_newlines, is_line_space, lemma_skip_spaces,
    lemma_line_end, lemma_skip_newlines};

verus! {

/// One matched keyword line: the free text after the keyword and its
/// single separator, the column where the keyword starts (counted from
/// the position the match began at), and the position after the line's
/// terminator (a run of newlines, or the end of the text).
pub ghost struct LineV {
    pub text: Seq<char>,
    pub indent: int,
    pub next: int,
}

/// Match one keyword line at `pos`: optional spaces and tabs, the
/// keyword itself, exactly one space or tab, then free text up to the
/// line end, terminated by the end of the text or one or more
/// newlines.
pub open spec fn spec_keyword(s: Seq<char>, pos: int, kw: Seq<char>) -> Option<LineV> {
    let kstart = skip_spaces(s, pos);
    let kend = kstart + kw.len();
    if kend < s.len() && s.subrange(kstart, kend) == kw && is_line_space(s[kend]) {
        let tstart = kend + 1;
        let tend = line_end(s, tstart);
        let next = if tend == s.len() {
            tend
        } else {
            skip_newlines(s, tend)
        };
        Some(LineV { text: s.subrange(tstart, tend), indent: kstart - pos, next })
    } else {
        None
    }
}

pub proof fn lemma_keyword_bounds(s: Seq<char>, pos: int, kw: Seq<char>)
    requires
        0 <= pos <= s.len(),
    ensures
        match spec_keyword(s, pos, kw) {
            Some(l) => pos < l.next <= s.len() && 0 <= l.indent,
            None => true,
        },
{
    lemma_skip_spaces(s, pos);
    let kstart = skip_spaces(s, pos);
    let kend = kstart + kw.len();
    if kend < s.len() && s.subrange(kstart, kend) == kw && is_line_space(s[kend]) {
        let tstart = kend + 1;
        lemma_line_end(s, tstart);
        let tend = line_end(s, tstart);
        if tend != s.len() {
            lemma_skip_newlines(s, tend);
        }
    }
}

/// Match one clause line: GIVEN, THEN or WHEN, in that order of trial.
pub open spec fn spec_gwt(s: Seq<char>, pos: int) -> Option<(ClauseV, int, int)> {
    match spec_keyword(s, pos, "GIVEN"@) {
        Some(l) => Some((ClauseV::Given(l.text), l.indent, l.next)),
        None => match spec_keyword(s, pos, "THEN"@) {
            Some(l) => Some((ClauseV::Then(l.text), l.indent, l.next)),
            None => match spec_keyword(s, pos, "WHEN"@) {
                Some(l) => Some((ClauseV::When(l.text), l.indent, l.next)),
                None => None,
            },
        },
    }
}

pub proof fn lemma_gwt_bounds(s: Seq<char>, pos: int)
    requires
        0 <= pos <= s.len(),
    ensures
        match spec_gwt(s, pos) {
            Some((c, ind, np)) => pos < np <= s.len() && 0 <= ind,
            None => true,
        },
{
    lemma_keyword_bounds(s, pos, "GIVEN"@);
    lemma_keyword_bounds(s, pos, "THEN"@);
    lemma_keyword_bounds(s, pos, "WHEN"@);
}

/// Zero or more further clause lines whose indentation equals `req`,
/// the column the scenario's first clause established.  Stops, without
/// failing, at the first line that is no clause or sits at another
/// column.
pub open spec fn spec_gwt_list(s: Seq<char>, pos: int, req: int) -> (Seq<ClauseV>, int)
    decreases s.len() - pos when 0 <= pos <= s.len() via spec_gwt_list_dec
{
    match spec_gwt(s, pos) {
        Some((c, ind, np)) => if ind == req {
            let (rest, pend) = spec_gwt_list(s, np, req);
            (seq![c] + rest, pend)
        } else {
            (Seq::<ClauseV>::empty(), pos)
        },
        None => (Seq::<ClauseV>::empty(), pos),
    }
}

#[via_fn]
proof fn spec_gwt_list_dec(s: Seq<char>, pos: int, req: int) {
    lemma_gwt_bounds(s, pos);
}

pub proof fn lemma_gwt_list_bounds(s: Seq<char>, pos: int, req: int)
    requires
        0 <= pos <= s.len(),
    ensures
        pos <= spec_gwt_list(s, pos, req).1 <= s.len(),
    decreases s.len() - pos,
{
    lemma_gwt_bounds(s, pos);
    match spec_gwt(s, pos) {
        Some((c, ind, np)) => {
            if ind == req {
                lemma_gwt_list_bounds(s, np, req);
            }
        },
        None => {},
    }
}

/// Match one scenario: a STEP line, a first clause strictly deeper than
/// the STEP keyword, then every further clause at exactly the first
/// clause's column.
pub open spec fn spec_step(s: Seq<char>, pos: int) -> Option<(StepV, int)> {
    match spec_keyword(s, pos, "STEP"@) {
        Some(l) => match spec_gwt(s, l.next) {
            Some((c0, ind0, p2)) => if ind0 > l.indent {
                let (rest, pend) = spec_gwt_list(s, p2, ind0);
                Some((StepV { name: l.text, clauses: seq![c0] + rest, indent: l.indent as nat }, pend))
            } else {
                None
            },
            None => None,
        },
        None => None,
    }
}

pub proof fn lemma_step_bounds(s: Seq<char>, pos: int)
    requires
        0 <= pos <= s.len(),
    ensures
        match spec_step(s, pos) {
            Some((st, pend)) => pos < pend <= s.len(),
            None => true,
        },
{
    lemma_keyword_bounds(s, pos, "STEP"@);
    match spec_keyword(s, pos, "STEP"@) {
        Some(l) => {
            lemma_gwt_bounds(s, l.next);
            match spec_gwt(s, l.next) {
                Some((c0, ind0, p2)) => {
                    lemma_gwt_list_bounds(s, p2, ind0);
                },
                None => {},
            }
        },
        None => {},
    }
}

/// Outcome of collecting a group's further sibling scenarios.
pub ghost enum StepListRes {
    /// The siblings at the required column, and the position after the
    /// last one.
    Upto(Seq<StepV>, int),
    /// A scenario stood at a column that is neither the sibling column
    /// nor the group's own: terminal, pointing at its keyword.
    Offside(int),
}

/// Zero or more further sibling scenarios at exactly the column `req`
/// that the group's first scenario established.  A scenario at the
/// group's own column `dedent` ends the group (it belongs to the
/// enclosing level); one at any other column fails the whole parse.
pub open spec fn spec_step_list(s: Seq<char>, pos: int, req: int, dedent: int) -> StepListRes
    decreases s.len() - pos when 0 <= pos <= s.len() via spec_step_list_dec
{
    match spec_step(s, pos) {
        Some((st, np)) => if st.indent == req {
            match spec_step_list(s, np, req, dedent) {
                StepListRes::Upto(rest, pend) => StepListRes::Upto(seq![st] + rest, pend),
                StepListRes::Offside(o) => StepListRes::Offside(o),
            }
        } else if st.indent == dedent {
            StepListRes::Upto(Seq::<StepV>::empty(), pos)
        } else {
            StepListRes::Offside(skip_spaces(s, pos))
        },
        None => StepListRes::Upto(Seq::<StepV>::empty(), pos),
    }
}

#[via_fn]
proof fn spec_step_list_dec(s: Seq<char>, pos: int, req: int, dedent: int) {
    lemma_step_bounds(s, pos);
}

pub proof fn lemma_step_list_bounds(s: Seq<char>, pos: int, req: int, dedent: int)
    requires
        0 <= pos <= s.len(),
    ensures
        match spec_step_list(s, pos, req, dedent) {
            StepListRes::Upto(ss, pend) => pos <= pend <= s.len(),
            StepListRes::Offside(o) => 0 <= o <= s.len(),
        },
    decreases s.len() - pos,
{
    lemma_step_bounds(s, pos);
    lemma_skip_spaces(s, pos);
    match spec_step(s, pos) {
        Some((st, np)) => {
            if st.indent == req {
                lemma_step_list_bounds(s, np, req, dedent);
            }
        },
        None => {},
    }
}

/// Outcome of trying a group at some position.
pub ghost enum GroupRes {
    /// No GROUP keyword line here; another construct may be tried.
    Absent,
    /// A full group and the position after it.
    Found(GroupV, int),
    /// The GROUP line matched but a scenario is missing, not strictly
    /// deeper than the GROUP keyword, or at an impossible column; the
    /// whole parse fails, pointing at the given offset.
    Offside(int),
}

/// Match one group: a GROUP line, a first scenario strictly deeper than
/// the GROUP keyword, then every further sibling scenario at exactly
/// the first scenario's column.  Once the GROUP keyword has matched,
/// failure of the first scenario, or a sibling at a column that is
/// neither the siblings' nor the group's own, is terminal.
pub open spec fn spec_group(s: Seq<char>, pos: int) -> GroupRes {
    match spec_keyword(s, pos, "GROUP"@) {
        Some(l) => match spec_step(s, l.next) {
            Some((st0, p2)) => if st0.indent > l.indent {
                match spec_step_list(s, p2, st0.indent as int, l.indent) {
                    StepListRes::Upto(rest, pend) => GroupRes::Found(
                        GroupV { name: l.text, steps: seq![st0] + rest, indent: l.indent as nat },
                        pend,
                    ),
                    StepListRes::Offside(o) => GroupRes::Offside(o),
                }
            } else {
                GroupRes::Offside(skip_spaces(s, l.next))
            },
            None => GroupRes::Offside(skip_spaces(s, l.next)),
        },
        None => GroupRes::Absent,
    }
}

pub proof fn lemma_group_bounds(s: Seq<char>, pos: int)
    requires
        0 <= pos <= s.len(),
    ensures
        match spec_group(s, pos) {
            GroupRes::Found(g, pend) => pos < pend <= s.len(),
            GroupRes::Offside(o) => 0 <= o <= s.len(),
            GroupRes::Absent => true,
        },
{
    lemma_keyword_bounds(s, pos, "GROUP"@);
    match spec_keyword(s, pos, "GROUP"@) {
        Some(l) => {
            lemma_step_bounds(s, l.next);
            lemma_skip_spaces(s, l.next);
            match spec_step(s, l.next) {
                Some((st0, p2)) => {
                    lemma_step_list_bounds(s, p2, st0.indent as int, l.indent);
                },
                None => {},
            }
        },
        None => {},
    }
}

/// Outcome of trying one top-level entry.
pub ghost enum EntryRes {
    Absent,
    Found(EntryV, int),
    Offside(int),
}

/// Match one top-level entry: a group, or else a bare scenario.
pub open spec fn spec_entry(s: Seq<char>, pos: int) -> EntryRes {
    match spec_group(s, pos) {
        GroupRes::Found(g, pend) => EntryRes::Found(EntryV::Group(g), pend),
        GroupRes::Offside(o) => EntryRes::Offside(o),
        GroupRes::Absent => match spec_step(s, pos) {
            Some((st, pend)) => EntryRes::Found(EntryV::Step(st), pend),
            None => EntryRes::Absent,
        },
    }
}

pub proof fn lemma_entry_bounds(s: Seq<char>, pos: int)
    requires
        0 <= pos <= s.len(),
    ensures
        match spec_entry(s, pos) {
            EntryRes::Found(e, pend) => pos < pend <= s.len(),
            EntryRes::Offside(o) => 0 <= o <= s.len(),
            EntryRes::Absent => true,
        },
{
    lemma_group_bounds(s, pos);
    lemma_step_bounds(s, pos);
}

/// Outcome of collecting the further top-level entries.
pub ghost enum EntriesRes {
    /// Every further entry at the established column, and the position
    /// after the last one.
    All(Seq<EntryV>, int),
    /// A group failed terminally, or an entry stood off the
    /// established column, at the given offset.
    Offside(int),
}

/// Collect further top-level entries, each at exactly the column `col`
/// that the document's first entry established, until none matches.
/// An entry at any other column fails the whole parse, pointing at its
/// keyword.
pub open spec fn spec_entries(s: Seq<char>, pos: int, col: int) -> EntriesRes
    decreases s.len() - pos when 0 <= pos <= s.len() via spec_entries_dec
{
    match spec_entry(s, pos) {
        EntryRes::Found(e, np) => if entry_indent(e) == col {
            match spec_entries(s, np, col) {
                EntriesRes::All(rest, pend) => EntriesRes::All(seq![e] + rest, pend),
                EntriesRes::Offside(o) => EntriesRes::Offside(o),
            }
        } else {
            EntriesRes::Offside(skip_spaces(s, pos))
        },
        EntryRes::Absent => EntriesRes::All(Seq::<EntryV>::empty(), pos),
        EntryRes::Offside(o) => EntriesRes::Offside(o),
    }
}

#[via_fn]
proof fn spec_entries_dec(s: Seq<char>, pos: int, col: int) {
    lemma_entry_bounds(s, pos);
}

pub proof fn lemma_entries_bounds(s: Seq<char>, pos: int, col: int)
    requires
        0 <= pos <= s.len(),
    ensures
        match spec_entries(s, pos, col) {
            EntriesRes::All(es, pend) => pos <= pend <= s.len(),
            EntriesRes::Offside(o) => 0 <= o <= s.len(),
        },
    decreases s.len() - pos,
{
    lemma_entry_bounds(s, pos);
    lemma_skip_spaces(s, pos);
    match spec_entry(s, pos) {
        EntryRes::Found(e, np) => {
            if entry_indent(e) == col {
                lemma_entries_bounds(s, np, col);
            }
        },
        _ => {},
    }
}

/// Outcome of parsing a whole document.
pub ghost enum PRes {
    /// The structurally determined document tree.
    Parsed(AstV),
    /// The character offset of the offending token.
    Rejected(int),
}

/// Parse a whole document: a WORKING_ON line at column zero, then one
/// or more entries — the first at any column, every further one at
/// exactly the first one's — then nothing but what the entries
/// consumed.  Any leftover text rejects the parse at the leftover's
/// first token.
pub open spec fn spec_parse(s: Seq<char>) -> PRes {
    match spec_keyword(s, 0, "WORKING_ON"@) {
        Some(l) => if l.indent == 0 {
            match spec_entry(s, l.next) {
                EntryRes::Found(e0, p1) => match spec_entries(s, p1, entry_indent(e0) as int) {
                    EntriesRes::All(rest, pend) => if pend == s.len() {
                        PRes::Parsed(AstV { working_on: l.text, nodes: seq![e0] + rest })
                    } else {
                        PRes::Rejected(skip_spaces(s, pend))
                    },
                    EntriesRes::Offside(o) => PRes::Rejected(o),
                },
                EntryRes::Absent => PRes::Rejected(skip_spaces(s, l.next)),
                EntryRes::Offside(o) => PRes::Rejected(o),
            }
        } else {
            PRes::Rejected(skip_spaces(s, 0))
        },
        None => PRes::Rejected(skip_spaces(s, 0)),
    }
}

pub proof fn lemma_parse_bounds(s: Seq<char>)
    ensures
        match spec_parse(s) {
            PRes::Rejected(o) => 0 <= o <= s.len(),
            PRes::Parsed(a) => true,
        },
{
    lemma_skip_spaces(s, 0);
    lemma_keyword_bounds(s, 0, "WORKING_ON"@);
    match spec_keyword(s, 0, "WORKING_ON"@) {
        Some(l) => {
            lemma_entry_bounds(s, l.next);
            lemma_skip_spaces(s, l.next);
            match spec_entry(s, l.next) {
                EntryRes::Found(e0, p1) => {
                    lemma_entries_bounds(s, p1, entry_indent(e0) as int);
                    match spec_entries(s, p1, entry_indent(e0) as int) {
                        EntriesRes::All(es, pend) => {
                            lemma_skip_spaces(s, pend);
                        },
                        _ => {},
                    }
                },
                _ => {},
            }
        },
        None => {},
    }
}

} // verus!
