//! The executable parser.  Every function returns exactly what the
//! corresponding specification function in `grammar` describes, so the
//! whole parse is a pure, deterministic function of the input text.

use vstd::prelude::*;
use vstd::string::*;
use crate::ast::{GWTNode, Step, Group, GSNode, AST, SyntaxError, ClauseV, clause_views, step_views,
    entry_views, entry_indent, names_view, givens_of, whens_of, thens_of, StepV, EntryV};
use crate::grammar::{LineV, spec_keyword, spec_gwt, spec_gwt_list, spec_step, spec_step_list,
    spec_group, spec_entry, spec_entries, spec_parse, StepListRes, GroupRes, EntryRes, EntriesRes,
    PRes, lemma_keyword_bounds, lemma_gwt_bounds, lemma_step_bounds, lemma_group_bounds,
    lemma_entry_bounds, lemma_entries_bounds, lemma_parse_bounds};
use crate::text::{scan_spaces, scan_line_end, scan_newlines, is_space_char};

verus! {

/// Match one keyword line at `pos`: spaces, `kw`, exactly one space
/// or tab, free text to the line end, then the end of the text or a
/// run of newlines.  Returns the free text, the keyword's column, and
/// the position after the terminator.
pub fn keyword(s: &str, pos: usize, kw: &str) -> (r: Option<(String, usize, usize)>)
    requires
        pos <= s@.len(),
    ensures
        match r {
            Some((t, ind, np)) => spec_keyword(s@, pos as int, kw@) == Some(
                LineV { text: t@, indent: ind as int, next: np as int },
            ) && pos <= np <= s@.len(),
            None => spec_keyword(s@, pos as int, kw@) is None,
        },
{
    let n = s.unicode_len();
    let klen = kw.unicode_len();
    let kstart = scan_spaces(s, pos);
    if klen >= n - kstart {
        // the keyword and its separator do not fit before the end
        return None;
    }
    let kend = kstart + klen;
    let mut j: usize = 0;
    while j < klen
        invariant
            0 <= j <= klen,
            pos <= kstart <= n,
            kstart + klen == kend <= n,
            n == s@.len(),
            klen == kw@.len(),
            kstart == crate::text::skip_spaces(s@, pos as int),
            forall|jj: int| 0 <= jj < j ==> s@[kstart + jj] == kw@[jj],
        decreases klen - j,
    {
        if s.get_char(kstart + j) != kw.get_char(j) {
            proof {
                assert(s@.subrange(kstart as int, kend as int)[j as int] == s@[kstart + j]);
                assert(s@.subrange(kstart as int, kend as int) != kw@);
            }
            return None;
        }
        j = j + 1;
    }
    proof {
        assert(s@.subrange(kstart as int, kend as int) =~= kw@);
    }
    if !is_space_char(s.get_char(kend)) {
        return None;
    }
    let tstart = kend + 1;
    let tend = scan_line_end(s, tstart);
    let text = s.substring_char(tstart, tend).to_owned();
    let npos = if tend == n {
        tend
    } else {
        scan_newlines(s, tend)
    };
    Some((text, kstart - pos, npos))
}

/// Match one GIVEN line.
pub fn given(s: &str, pos: usize) -> (r: Option<(GWTNode, usize, usize)>)
    requires
        pos <= s@.len(),
    ensures
        match r {
            Some((c, ind, np)) => spec_keyword(s@, pos as int, "GIVEN"@) matches Some(l) && c@
                == ClauseV::Given(l.text) && ind == l.indent && np == l.next,
            None => spec_keyword(s@, pos as int, "GIVEN"@) is None,
        },
{
    match keyword(s, pos, "GIVEN") {
        Some((t, ind, np)) => Some((GWTNode::Given(t), ind, np)),
        None => None,
    }
}

/// Match one THEN line.
pub fn then_clause(s: &str, pos: usize) -> (r: Option<(GWTNode, usize, usize)>)
    requires
        pos <= s@.len(),
    ensures
        match r {
            Some((c, ind, np)) => spec_keyword(s@, pos as int, "THEN"@) matches Some(l) && c@
                == ClauseV::Then(l.text) && ind == l.indent && np == l.next,
            None => spec_keyword(s@, pos as int, "THEN"@) is None,
        },
{
    match keyword(s, pos, "THEN") {
        Some((t, ind, np)) => Some((GWTNode::Then(t), ind, np)),
        None => None,
    }
}

/// Match one WHEN line.
pub fn when(s: &str, pos: usize) -> (r: Option<(GWTNode, usize, usize)>)
    requires
        pos <= s@.len(),
    ensures
        match r {
            Some((c, ind, np)) => spec_keyword(s@, pos as int, "WHEN"@) matches Some(l) && c@
                == ClauseV::When(l.text) && ind == l.indent && np == l.next,
            None => spec_keyword(s@, pos as int, "WHEN"@) is None,
        },
{
    match keyword(s, pos, "WHEN") {
        Some((t, ind, np)) => Some((GWTNode::When(t), ind, np)),
        None => None,
    }
}

/// Match one clause line of any kind.
pub fn gwt(s: &str, pos: usize) -> (r: Option<(GWTNode, usize, usize)>)
    requires
        pos <= s@.len(),
    ensures
        match r {
            Some((c, ind, np)) => spec_gwt(s@, pos as int) == Some((c@, ind as int, np as int))
                && pos < np <= s@.len(),
            None => spec_gwt(s@, pos as int) is None,
        },
{
    proof {
        lemma_gwt_bounds(s@, pos as int);
    }
    match given(s, pos) {
        Some((c, ind, np)) => Some((c, ind, np)),
        None => match then_clause(s, pos) {
            Some((c, ind, np)) => Some((c, ind, np)),
            None => match when(s, pos) {
                Some((c, ind, np)) => Some((c, ind, np)),
                None => None,
            },
        },
    }
}

/// Collect further clause lines at exactly the column `req`.
fn gwt_list(s: &str, pos: usize, req: usize) -> (r: (Vec<GWTNode>, usize))
    requires
        pos <= s@.len(),
    ensures
        clause_views(r.0@) == spec_gwt_list(s@, pos as int, req as int).0,
        r.1 == spec_gwt_list(s@, pos as int, req as int).1,
        pos <= r.1 <= s@.len(),
{
    let mut acc: Vec<GWTNode> = Vec::new();
    let mut cur = pos;
    proof {
        assert(clause_views(acc@) + spec_gwt_list(s@, pos as int, req as int).0 =~= spec_gwt_list(
            s@,
            pos as int,
            req as int,
        ).0);
    }
    loop
        invariant
            pos <= cur <= s@.len(),
            spec_gwt_list(s@, pos as int, req as int).0 == clause_views(acc@) + spec_gwt_list(
                s@,
                cur as int,
                req as int,
            ).0,
            spec_gwt_list(s@, pos as int, req as int).1 == spec_gwt_list(s@, cur as int, req as int).1,
        ensures
            pos <= cur <= s@.len(),
            spec_gwt_list(s@, pos as int, req as int).0 == clause_views(acc@),
            spec_gwt_list(s@, pos as int, req as int).1 == cur as int,
        decreases s@.len() - cur,
    {
        let ghost prev_acc = acc@;
        match gwt(s, cur) {
            Some((c, ind, np)) => {
                if ind == req {
                    proof {
                        lemma_gwt_bounds(s@, cur as int);
                    }
                    acc.push(c);
                    proof {
                        assert(clause_views(acc@) =~= clause_views(prev_acc) + seq![c@]);
                        assert(clause_views(prev_acc) + (seq![c@] + spec_gwt_list(
                            s@,
                            np as int,
                            req as int,
                        ).0) =~= clause_views(acc@) + spec_gwt_list(s@, np as int, req as int).0);
                    }
                    cur = np;
                } else {
                    proof {
                        assert(clause_views(acc@) + Seq::<ClauseV>::empty() =~= clause_views(acc@));
                    }
                    break;
                }
            },
            None => {
                proof {
                    assert(clause_views(acc@) + Seq::<ClauseV>::empty() =~= clause_views(acc@));
                }
                break;
            },
        }
    }
    (acc, cur)
}

/// Match one scenario: a STEP line, a first clause strictly deeper than
/// the STEP keyword, then the further clauses at the first clause's
/// column.
pub fn step(s: &str, pos: usize) -> (r: Option<(Step, usize)>)
    requires
        pos <= s@.len(),
    ensures
        match r {
            Some((st, np)) => spec_step(s@, pos as int) == Some((st@, np as int)) && pos < np
                <= s@.len(),
            None => spec_step(s@, pos as int) is None,
        },
{
    proof {
        lemma_step_bounds(s@, pos as int);
    }
    let (name, si, p1) = match keyword(s, pos, "STEP") {
        Some(v) => v,
        None => {
            return None;
        },
    };
    let (c0, i0, p2) = match gwt(s, p1) {
        Some(v) => v,
        None => {
            return None;
        },
    };
    if !(i0 > si) {
        return None;
    }
    let mut cs: Vec<GWTNode> = Vec::new();
    cs.push(c0);
    let ghost c0v = c0@;
    let (mut rest, pend) = gwt_list(s, p2, i0);
    let ghost restv = rest@;
    cs.append(&mut rest);
    proof {
        assert(cs@ =~= seq![c0] + restv);
        assert(clause_views(cs@) =~= seq![c0v] + clause_views(restv));
    }
    let st = Step { name, gwt_list: cs, indent: si };
    proof {
        let specres = spec_step(s@, pos as int);
        assert(specres matches Some((sst, spend)) && sst.clauses =~= clause_views(cs@));
        assert(specres == Some((st@, pend as int)));
    }
    Some((st, pend))
}

/// Collect further sibling scenarios at exactly the column `req`.  A
/// scenario at the group's own column `dedent` ends the list; one at
/// any other column fails, pointing at its keyword.
fn step_list(s: &str, pos: usize, req: usize, dedent: usize) -> (r: Result<
    (Vec<Step>, usize),
    usize,
>)
    requires
        pos <= s@.len(),
    ensures
        match r {
            Ok((ss, pend)) => spec_step_list(s@, pos as int, req as int, dedent as int)
                == StepListRes::Upto(step_views(ss@), pend as int) && pos <= pend <= s@.len(),
            Err(o) => spec_step_list(s@, pos as int, req as int, dedent as int)
                == StepListRes::Offside(o as int) && o <= s@.len(),
        },
{
    let mut acc: Vec<Step> = Vec::new();
    let mut cur = pos;
    proof {
        assert(step_views(acc@) + Seq::<StepV>::empty() =~= step_views(acc@));
    }
    loop
        invariant
            pos <= cur <= s@.len(),
            (match spec_step_list(s@, cur as int, req as int, dedent as int) {
                StepListRes::Upto(rest, pend) => spec_step_list(
                    s@,
                    pos as int,
                    req as int,
                    dedent as int,
                ) == StepListRes::Upto(step_views(acc@) + rest, pend),
                StepListRes::Offside(o) => spec_step_list(s@, pos as int, req as int, dedent as int)
                    == StepListRes::Offside(o),
            }),
        ensures
            pos <= cur <= s@.len(),
            spec_step_list(s@, pos as int, req as int, dedent as int) == StepListRes::Upto(
                step_views(acc@),
                cur as int,
            ),
        decreases s@.len() - cur,
    {
        let ghost prev_acc = acc@;
        match step(s, cur) {
            Some((st, np)) => {
                if st.indent == req {
                    acc.push(st);
                    proof {
                        assert(step_views(acc@) =~= step_views(prev_acc) + seq![acc@.last()@]);
                        match spec_step_list(s@, np as int, req as int, dedent as int) {
                            StepListRes::Upto(rest, pend) => {
                                assert(step_views(prev_acc) + (seq![acc@.last()@] + rest)
                                    =~= step_views(acc@) + rest);
                            },
                            StepListRes::Offside(o) => {},
                        }
                    }
                    cur = np;
                } else if st.indent == dedent {
                    proof {
                        assert(step_views(acc@) + Seq::<StepV>::empty() =~= step_views(acc@));
                    }
                    break;
                } else {
                    return Err(scan_spaces(s, cur));
                }
            },
            None => {
                proof {
                    assert(step_views(acc@) + Seq::<StepV>::empty() =~= step_views(acc@));
                }
                break;
            },
        }
    }
    Ok((acc, cur))
}

/// Match one group.  `Ok(None)` means no GROUP keyword line stands
/// here; `Err(offset)` means the GROUP line matched but a scenario is
/// missing, not strictly deeper than the GROUP keyword, or at an
/// impossible column, which fails the whole parse at that offset.
pub fn group(s: &str, pos: usize) -> (r: Result<Option<(Group, usize)>, usize>)
    requires
        pos <= s@.len(),
    ensures
        match r {
            Ok(Some((g, np))) => spec_group(s@, pos as int) == GroupRes::Found(g@, np as int) && pos
                < np <= s@.len(),
            Ok(None) => spec_group(s@, pos as int) is Absent,
            Err(o) => spec_group(s@, pos as int) == GroupRes::Offside(o as int) && o <= s@.len(),
        },
{
    proof {
        lemma_group_bounds(s@, pos as int);
    }
    let (name, gi, p1) = match keyword(s, pos, "GROUP") {
        Some(v) => v,
        None => {
            return Ok(None);
        },
    };
    let first = step(s, p1);
    match first {
        Some((st0, p2)) => {
            if st0.indent > gi {
                let ghost st0v = st0@;
                let first_indent = st0.indent;
                match step_list(s, p2, first_indent, gi) {
                    Err(o) => Err(o),
                    Ok((mut rest, pend)) => {
                        let ghost restv = rest@;
                        let mut steps: Vec<Step> = Vec::new();
                        steps.push(st0);
                        steps.append(&mut rest);
                        proof {
                            assert(steps@ =~= seq![steps@[0]] + restv);
                            assert(step_views(steps@) =~= seq![st0v] + step_views(restv));
                        }
                        let g = Group { name, steps, indent: gi };
                        proof {
                            let specres = spec_group(s@, pos as int);
                            assert(specres matches GroupRes::Found(sg, spend) && sg.steps
                                =~= step_views(g.steps@));
                            assert(specres == GroupRes::Found(g@, pend as int));
                        }
                        Ok(Some((g, pend)))
                    },
                }
            } else {
                Err(scan_spaces(s, p1))
            }
        },
        None => Err(scan_spaces(s, p1)),
    }
}

/// Match one top-level entry: a group, or else a bare scenario.
fn entry(s: &str, pos: usize) -> (r: Result<Option<(GSNode, usize)>, usize>)
    requires
        pos <= s@.len(),
    ensures
        match r {
            Ok(Some((e, np))) => spec_entry(s@, pos as int) == EntryRes::Found(e@, np as int) && pos
                < np <= s@.len(),
            Ok(None) => spec_entry(s@, pos as int) is Absent,
            Err(o) => spec_entry(s@, pos as int) == EntryRes::Offside(o as int) && o <= s@.len(),
        },
{
    match group(s, pos) {
        Ok(Some((g, np))) => Ok(Some((GSNode::Group(g), np))),
        Err(o) => Err(o),
        Ok(None) => match step(s, pos) {
            Some((st, np)) => Ok(Some((GSNode::Step(st), np))),
            None => Ok(None),
        },
    }
}

/// The column at which an entry's own keyword stands.
fn gs_node_indent(e: &GSNode) -> (i: usize)
    ensures
        i as nat == entry_indent(e@),
{
    match e {
        GSNode::Group(g) => g.indent,
        GSNode::Step(st) => st.indent,
    }
}

/// Collect the further top-level entries, each at exactly the column
/// `col`, until none matches.  One at another column fails, pointing
/// at its keyword.
fn entries(s: &str, pos: usize, col: usize) -> (r: Result<(Vec<GSNode>, usize), usize>)
    requires
        pos <= s@.len(),
    ensures
        match r {
            Ok((es, pend)) => spec_entries(s@, pos as int, col as int) == EntriesRes::All(
                entry_views(es@),
                pend as int,
            ) && pos <= pend <= s@.len(),
            Err(o) => spec_entries(s@, pos as int, col as int) == EntriesRes::Offside(o as int)
                && o <= s@.len(),
        },
{
    let mut acc: Vec<GSNode> = Vec::new();
    let mut cur = pos;
    proof {
        assert(entry_views(acc@) + Seq::<EntryV>::empty() =~= entry_views(acc@));
    }
    loop
        invariant
            pos <= cur <= s@.len(),
            (match spec_entries(s@, cur as int, col as int) {
                EntriesRes::All(rest, pend) => spec_entries(s@, pos as int, col as int)
                    == EntriesRes::All(entry_views(acc@) + rest, pend),
                EntriesRes::Offside(o) => spec_entries(s@, pos as int, col as int)
                    == EntriesRes::Offside(o),
            }),
        ensures
            pos <= cur <= s@.len(),
            spec_entries(s@, pos as int, col as int) == EntriesRes::All(
                entry_views(acc@),
                cur as int,
            ),
        decreases s@.len() - cur,
    {
        let ghost prev_acc = acc@;
        match entry(s, cur) {
            Ok(Some((e, np))) => {
                if gs_node_indent(&e) == col {
                    acc.push(e);
                    proof {
                        lemma_entries_bounds(s@, np as int, col as int);
                        assert(entry_views(acc@) =~= entry_views(prev_acc) + seq![acc@.last()@]);
                        match spec_entries(s@, np as int, col as int) {
                            EntriesRes::All(rest, pend) => {
                                assert(entry_views(prev_acc) + (seq![acc@.last()@] + rest)
                                    =~= entry_views(acc@) + rest);
                            },
                            EntriesRes::Offside(o) => {},
                        }
                    }
                    cur = np;
                } else {
                    return Err(scan_spaces(s, cur));
                }
            },
            Ok(None) => {
                proof {
                    assert(entry_views(acc@) + Seq::<EntryV>::empty() =~= entry_views(acc@));
                }
                break;
            },
            Err(o) => {
                return Err(o);
            },
        }
    }
    Ok((acc, cur))
}

/// Match the WORKING_ON header line, which must start at column zero.
pub fn working_on(s: &str) -> (r: Option<(String, usize)>)
    ensures
        match r {
            Some((w, np)) => spec_keyword(s@, 0, "WORKING_ON"@) matches Some(l) && l.indent == 0
                && w@ == l.text && np == l.next && np <= s@.len(),
            None => !(spec_keyword(s@, 0, "WORKING_ON"@) matches Some(l) && l.indent == 0),
        },
{
    match keyword(s, 0, "WORKING_ON") {
        Some((w, ind, np)) => {
            if ind == 0 {
                Some((w, np))
            } else {
                None
            }
        },
        None => None,
    }
}

fn mk_error(input: &str, source_name: &str, at: usize) -> (e: SyntaxError)
    requires
        at <= input@.len(),
    ensures
        e.src@ == input@,
        e.name@ == source_name@,
        e.at == at,
        e.at_len == (if (at as int) < input@.len() {
            1int
        } else {
            0int
        }),
{
    let n = input.unicode_len();
    SyntaxError {
        src: input.to_owned(),
        name: source_name.to_owned(),
        at,
        at_len: if at < n {
            1
        } else {
            0
        },
    }
}

/// Parse a whole document, or fail with one located syntax error.
///
/// On success the returned tree is exactly the one the grammar
/// describes for this text, so identical input always yields a
/// structurally identical document.  On failure the error carries the
/// whole source text, the given source name, and the character offset
/// of the offending token (with length 1, or 0 at the end of the
/// text).
pub fn parse(input: &str, source_name: &str) -> (r: Result<AST, SyntaxError>)
    ensures
        match r {
            Ok(ast) => spec_parse(input@) == PRes::Parsed(ast@),
            Err(e) => spec_parse(input@) == PRes::Rejected(e.at as int) && e.src@ == input@
                && e.name@ == source_name@ && e.at_len == (if (e.at as int) < input@.len() {
                1int
            } else {
                0int
            }),
        },
{
    proof {
        lemma_parse_bounds(input@);
        lemma_keyword_bounds(input@, 0, "WORKING_ON"@);
    }
    let n = input.unicode_len();
    match working_on(input) {
        None => {
            let at = scan_spaces(input, 0);
            Err(mk_error(input, source_name, at))
        },
        Some((w, p0)) => {
            proof {
                lemma_entry_bounds(input@, p0 as int);
            }
            match entry(input, p0) {
                Err(o) => Err(mk_error(input, source_name, o)),
                Ok(None) => {
                    let at = scan_spaces(input, p0);
                    Err(mk_error(input, source_name, at))
                },
                Ok(Some((e0, p1))) => {
                    let ghost e0v = e0@;
                    let col = gs_node_indent(&e0);
                    match entries(input, p1, col) {
                        Err(o) => Err(mk_error(input, source_name, o)),
                        Ok((mut rest, pend)) => {
                            if pend == n {
                                let ghost restv = rest@;
                                let mut nodes: Vec<GSNode> = Vec::new();
                                nodes.push(e0);
                                nodes.append(&mut rest);
                                let ast = AST { working_on: w, nodes };
                                proof {
                                    assert(ast.nodes@ =~= seq![ast.nodes@[0]] + restv);
                                    assert(entry_views(ast.nodes@) =~= seq![e0v] + entry_views(
                                        restv,
                                    ));
                                    assert(spec_parse(input@) matches PRes::Parsed(a) && a.nodes
                                        =~= entry_views(ast.nodes@));
                                    assert(spec_parse(input@) == PRes::Parsed(ast@));
                                }
                                Ok(ast)
                            } else {
                                let at = scan_spaces(input, pend);
                                Err(mk_error(input, source_name, at))
                            }
                        },
                    }
                },
            }
        },
    }
}

/// Fold one scenario's clauses into its given-texts, its collapsed
/// action text (all WHEN texts concatenated in order with no
/// separator), and its then-texts, each in original order.
pub fn compress_step(step: Step) -> (r: (Vec<String>, String, Vec<String>))
    ensures
        names_view(r.0@) == givens_of(step@.clauses),
        r.1@ == whens_of(step@.clauses),
        names_view(r.2@) == thens_of(step@.clauses),
{
    let ghost cs = step@.clauses;
    let mut gs: Vec<String> = Vec::new();
    let mut w: String = String::new();
    let mut ts: Vec<String> = Vec::new();
    let mut i: usize = 0;
    let len = step.gwt_list.len();
    proof {
        assert(cs.subrange(0, cs.len() as int) =~= cs);
        assert(names_view(gs@) + givens_of(cs) =~= givens_of(cs));
        assert(names_view(ts@) + thens_of(cs) =~= thens_of(cs));
        assert(w@ + whens_of(cs) =~= whens_of(cs));
    }
    while i < len
        invariant
            0 <= i <= len,
            len == step.gwt_list@.len(),
            cs == clause_views(step.gwt_list@),
            givens_of(cs) == names_view(gs@) + givens_of(cs.subrange(i as int, cs.len() as int)),
            whens_of(cs) == w@ + whens_of(cs.subrange(i as int, cs.len() as int)),
            thens_of(cs) == names_view(ts@) + thens_of(cs.subrange(i as int, cs.len() as int)),
        decreases len - i,
    {
        let ghost rem = cs.subrange(i as int, cs.len() as int);
        proof {
            assert(rem[0] == cs[i as int]);
            assert(rem.drop_first() =~= cs.subrange(i as int + 1, cs.len() as int));
        }
        let ghost prev_gs = gs@;
        let ghost prev_ts = ts@;
        let ghost prev_w = w@;
        match &step.gwt_list[i] {
            GWTNode::Given(g) => {
                gs.push(g.clone());
                proof {
                    assert(names_view(gs@) =~= names_view(prev_gs) + seq![cs[i as int] ->Given_0]);
                    assert(names_view(prev_gs) + (seq![cs[i as int]->Given_0] + givens_of(
                        rem.drop_first(),
                    )) =~= names_view(gs@) + givens_of(rem.drop_first()));
                }
            },
            GWTNode::When(wt) => {
                w.append(wt.as_str());
            },
            GWTNode::Then(t) => {
                ts.push(t.clone());
                proof {
                    assert(names_view(ts@) =~= names_view(prev_ts) + seq![cs[i as int]->Then_0]);
                    assert(names_view(prev_ts) + (seq![cs[i as int]->Then_0] + thens_of(
                        rem.drop_first(),
                    )) =~= names_view(ts@) + thens_of(rem.drop_first()));
                }
            },
        }
        i = i + 1;
    }
    proof {
        assert(cs.subrange(cs.len() as int, cs.len() as int) =~= Seq::<ClauseV>::empty());
        assert(names_view(gs@) + Seq::<Seq<char>>::empty() =~= names_view(gs@));
        assert(names_view(ts@) + Seq::<Seq<char>>::empty() =~= names_view(ts@));
        assert(w@ + Seq::<char>::empty() =~= w@);
    }
    (gs, w, ts)
}

} // verus!
