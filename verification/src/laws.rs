//! The laws the library states of itself, each proved from the public
//! specification functions alone.

use vstd::prelude::*;
use crate::ast::{AstV, EntryV, GroupV, StepV, entry_indent};
use crate::grammar::{spec_parse, spec_step, spec_step_list, spec_group, spec_entry, spec_entries,
    PRes, StepListRes, GroupRes, EntryRes, EntriesRes, lemma_step_bounds, lemma_group_bounds,
    lemma_entry_bounds};
use crate::model::{ModelV, TransitionV, wf, spec_add_step, spec_step_key, has_place,
    has_transition, place_handle, transition_handle, lemma_add_step_effect,
    lemma_extends_contains, find_place, find_transition};

verus! {

/// Parsing is deterministic: the result of a parse is a function of
/// the input text alone, so two parses of identical text agree, run
/// for run.  The executable parser's contract pins its result to
/// `spec_parse`, and this law closes the loop over two such results.
pub proof fn lemma_parse_deterministic(s: Seq<char>, r1: PRes, r2: PRes)
    requires
        r1 == spec_parse(s),
        r2 == spec_parse(s),
    ensures
        r1 == r2,
{
}

/// A structurally consistent scenario: at least one clause.
pub open spec fn step_consistent(st: StepV) -> bool {
    st.clauses.len() >= 1
}

/// A structurally consistent group: at least one scenario, every
/// sibling at exactly the first sibling's column, which lies strictly
/// deeper than the group's own.
pub open spec fn group_consistent(g: GroupV) -> bool {
    &&& g.steps.len() >= 1
    &&& g.steps[0].indent > g.indent
    &&& forall|i: int|
        0 <= i < g.steps.len() ==> (#[trigger] g.steps[i]).indent == g.steps[0].indent
    &&& forall|i: int| 0 <= i < g.steps.len() ==> step_consistent(#[trigger] g.steps[i])
}

pub open spec fn entry_consistent(e: EntryV) -> bool {
    match e {
        EntryV::Group(g) => group_consistent(g),
        EntryV::Step(st) => step_consistent(st),
    }
}

/// A structurally consistent document: at least one entry, every one
/// of them consistent, all of them at the column the first entry
/// established.
pub open spec fn ast_consistent(a: AstV) -> bool {
    &&& a.nodes.len() >= 1
    &&& forall|i: int| 0 <= i < a.nodes.len() ==> entry_consistent(#[trigger] a.nodes[i])
    &&& forall|i: int|
        0 <= i < a.nodes.len() ==> entry_indent(#[trigger] a.nodes[i]) == entry_indent(a.nodes[0])
}

proof fn lemma_step_consistent(s: Seq<char>, pos: int)
    requires
        0 <= pos <= s.len(),
    ensures
        spec_step(s, pos) matches Some((st, pend)) ==> step_consistent(st),
{
}

proof fn lemma_step_list_consistent(s: Seq<char>, pos: int, req: int, dedent: int)
    requires
        0 <= pos <= s.len(),
    ensures
        spec_step_list(s, pos, req, dedent) matches StepListRes::Upto(ss, pend) ==> forall|i: int|
            0 <= i < ss.len() ==> (#[trigger] ss[i]).indent == req && step_consistent(ss[i]),
    decreases s.len() - pos,
{
    lemma_step_bounds(s, pos);
    match spec_step(s, pos) {
        Some((st, np)) => {
            if st.indent == req {
                lemma_step_list_consistent(s, np, req, dedent);
                lemma_step_consistent(s, pos);
                match spec_step_list(s, np, req, dedent) {
                    StepListRes::Upto(rest, rpend) => {
                        match spec_step_list(s, pos, req, dedent) {
                            StepListRes::Upto(whole, wpend) => {
                                assert forall|i: int| 0 <= i < whole.len() implies (
                                #[trigger] whole[i]).indent == req && step_consistent(whole[i]) by {
                                    if i > 0 {
                                        assert(whole[i] == rest[i - 1]);
                                    }
                                }
                            },
                            _ => {},
                        }
                    },
                    _ => {},
                }
            }
        },
        None => {},
    }
}

proof fn lemma_group_consistent(s: Seq<char>, pos: int)
    requires
        0 <= pos <= s.len(),
    ensures
        spec_group(s, pos) matches GroupRes::Found(g, pend) ==> group_consistent(g),
{
    lemma_group_bounds(s, pos);
    crate::grammar::lemma_keyword_bounds(s, pos, "GROUP"@);
    match crate::grammar::spec_keyword(s, pos, "GROUP"@) {
        Some(l) => {
            lemma_step_bounds(s, l.next);
            lemma_step_consistent(s, l.next);
            match spec_step(s, l.next) {
                Some((st0, p2)) => {
                    if st0.indent > l.indent {
                        lemma_step_list_consistent(s, p2, st0.indent as int, l.indent);
                        match spec_step_list(s, p2, st0.indent as int, l.indent) {
                            StepListRes::Upto(rest, rpend) => {
                                let g = spec_group(s, pos)->Found_0;
                                assert forall|i: int| 0 <= i < g.steps.len() implies (
                                #[trigger] g.steps[i]).indent == g.steps[0].indent
                                    && step_consistent(g.steps[i]) by {
                                    if i > 0 {
                                        assert(g.steps[i] == rest[i - 1]);
                                    }
                                }
                            },
                            _ => {},
                        }
                    }
                },
                None => {},
            }
        },
        None => {},
    }
}

proof fn lemma_entries_consistent(s: Seq<char>, pos: int, col: int)
    requires
        0 <= pos <= s.len(),
    ensures
        spec_entries(s, pos, col) matches EntriesRes::All(es, pend) ==> forall|i: int|
            0 <= i < es.len() ==> entry_consistent(#[trigger] es[i]) && entry_indent(es[i]) == col,
    decreases s.len() - pos,
{
    lemma_entry_bounds(s, pos);
    lemma_group_consistent(s, pos);
    lemma_step_consistent(s, pos);
    match spec_entry(s, pos) {
        EntryRes::Found(e, np) => {
            if entry_indent(e) == col {
                lemma_entries_consistent(s, np, col);
                match spec_entries(s, np, col) {
                    EntriesRes::All(rest, pend) => {
                        let whole = (seq![e] + rest);
                        assert forall|i: int| 0 <= i < whole.len() implies entry_consistent(
                            #[trigger] whole[i],
                        ) && entry_indent(whole[i]) == col by {
                            if i > 0 {
                                assert(whole[i] == rest[i - 1]);
                            }
                        }
                    },
                    _ => {},
                }
            }
        },
        _ => {},
    }
}

/// Indentation-consistency law, positive direction: whatever document
/// a parse accepts obeys the sibling rules — every group holds at
/// least one scenario, all its scenarios stand at exactly the first
/// one's column, strictly deeper than the group's own; every scenario
/// holds at least one clause; and every top-level entry stands at
/// exactly the column the first entry established.  A line that fits
/// no level is rejected, with the span at its keyword: the grammar
/// makes an off-column group sibling or top-level entry a terminal
/// error, and an off-column clause ends its scenario and can never be
/// consumed as anything else, so it surfaces as leftover input.
pub proof fn lemma_parsed_ast_consistent(s: Seq<char>)
    ensures
        spec_parse(s) matches PRes::Parsed(a) ==> ast_consistent(a),
{
    match crate::grammar::spec_keyword(s, 0, "WORKING_ON"@) {
        Some(l) => {
            crate::grammar::lemma_keyword_bounds(s, 0, "WORKING_ON"@);
            lemma_group_consistent(s, l.next);
            lemma_step_consistent(s, l.next);
            lemma_entry_bounds(s, l.next);
            match spec_entry(s, l.next) {
                EntryRes::Found(e0, p1) => {
                    lemma_entries_consistent(s, p1, entry_indent(e0) as int);
                    match spec_entries(s, p1, entry_indent(e0) as int) {
                        EntriesRes::All(rest, pend) => {
                            let whole = seq![e0] + rest;
                            assert(whole[0] == e0);
                            assert forall|i: int| 0 <= i < whole.len() implies entry_consistent(
                                #[trigger] whole[i],
                            ) && entry_indent(whole[i]) == entry_indent(whole[0]) by {
                                if i > 0 {
                                    assert(whole[i] == rest[i - 1]);
                                }
                            }
                        },
                        _ => {},
                    }
                },
                _ => {},
            }
        },
        None => {},
    }
}

/// Dedup law: two scenarios with the same non-empty action text share
/// exactly one transition node, which gathers edges from both
/// scenarios' given places and to both scenarios' then places.
pub proof fn lemma_transition_dedup(
    v: ModelV,
    g1: Seq<Seq<char>>,
    action: Seq<char>,
    t1: Seq<Seq<char>>,
    g2: Seq<Seq<char>>,
    t2: Seq<Seq<char>>,
)
    requires
        wf(v),
        action.len() > 0,
    ensures
        ({
            let key = TransitionV::Named(action);
            let v1 = spec_add_step(v, g1, action, t1);
            let v2 = spec_add_step(v1, g2, action, t2);
            let h = transition_handle(v2, key);
            &&& wf(v2)
            &&& has_transition(v2, key)
            // exactly one transition entry carries this identity
            &&& forall|i: int, j: int|
                #![trigger v2.transitions[i], v2.transitions[j]]
                0 <= i < j < v2.transitions.len() ==> !(v2.transitions[i].0 == key
                    && v2.transitions[j].0 == key)
            // the union of both scenarios' givens feeds this one node
            &&& forall|i: int|
                0 <= i < g1.len() ==> has_place(v2, #[trigger] g1[i]) && v2.edges.contains(
                    (place_handle(v2, g1[i]), h),
                )
            &&& forall|i: int|
                0 <= i < g2.len() ==> has_place(v2, #[trigger] g2[i]) && v2.edges.contains(
                    (place_handle(v2, g2[i]), h),
                )
            // and it fans out to the union of both scenarios' thens
            &&& forall|i: int|
                0 <= i < t1.len() ==> has_place(v2, #[trigger] t1[i]) && v2.edges.contains(
                    (h, place_handle(v2, t1[i])),
                )
            &&& forall|i: int|
                0 <= i < t2.len() ==> has_place(v2, #[trigger] t2[i]) && v2.edges.contains(
                    (h, place_handle(v2, t2[i])),
                )
        }),
{
    let key = TransitionV::Named(action);
    let v1 = spec_add_step(v, g1, action, t1);
    let v2 = spec_add_step(v1, g2, action, t2);
    lemma_add_step_effect(v, g1, action, t1);
    lemma_add_step_effect(v1, g2, action, t2);
    assert(spec_step_key(v, action).0 == key);
    assert(spec_step_key(v1, action).0 == key);
    let h = transition_handle(v2, key);
    assert(find_transition(v2.transitions, key) == find_transition(v1.transitions, key));
    assert forall|i: int| 0 <= i < g1.len() implies has_place(v2, #[trigger] g1[i])
        && v2.edges.contains((place_handle(v2, g1[i]), h)) by {
        assert(has_place(v1, g1[i]));
        assert(find_place(v2.places, g1[i]) == find_place(v1.places, g1[i]));
        assert(v1.edges.contains((place_handle(v1, g1[i]), transition_handle(v1, key))));
        lemma_extends_contains(v1, v2, (place_handle(v1, g1[i]), transition_handle(v1, key)));
    }
    assert forall|i: int| 0 <= i < t1.len() implies has_place(v2, #[trigger] t1[i])
        && v2.edges.contains((h, place_handle(v2, t1[i]))) by {
        assert(has_place(v1, t1[i]));
        assert(find_place(v2.places, t1[i]) == find_place(v1.places, t1[i]));
        assert(v1.edges.contains((transition_handle(v1, key), place_handle(v1, t1[i]))));
        lemma_extends_contains(v1, v2, (transition_handle(v1, key), place_handle(v1, t1[i])));
    }
}

/// Non-merge law: two scenarios with empty action text never share a
/// transition node, even if their given- and then-texts coincide (or
/// are empty): each takes a fresh serial number, and the two serial
/// numbers' nodes are distinct.
pub proof fn lemma_empty_never_merged(
    v: ModelV,
    g1: Seq<Seq<char>>,
    t1: Seq<Seq<char>>,
    g2: Seq<Seq<char>>,
    t2: Seq<Seq<char>>,
)
    requires
        wf(v),
    ensures
        ({
            let empty_text = Seq::<char>::empty();
            let k1 = TransitionV::Empty((v.counter + 1) as nat);
            let k2 = TransitionV::Empty((v.counter + 2) as nat);
            let v1 = spec_add_step(v, g1, empty_text, t1);
            let v2 = spec_add_step(v1, g2, empty_text, t2);
            &&& wf(v2)
            &&& k1 != k2
            &&& has_transition(v2, k1)
            &&& has_transition(v2, k2)
            &&& transition_handle(v2, k1) != transition_handle(v2, k2)
        }),
{
    let empty_text = Seq::<char>::empty();
    let k1 = TransitionV::Empty((v.counter + 1) as nat);
    let k2 = TransitionV::Empty((v.counter + 2) as nat);
    let v1 = spec_add_step(v, g1, empty_text, t1);
    let v2 = spec_add_step(v1, g2, empty_text, t2);
    lemma_add_step_effect(v, g1, empty_text, t1);
    lemma_add_step_effect(v1, g2, empty_text, t2);
    assert(spec_step_key(v, empty_text).0 == k1);
    assert(spec_step_key(v1, empty_text).0 == k2);
    assert(has_transition(v1, k1));
    assert(find_transition(v2.transitions, k1) == find_transition(v1.transitions, k1));
    crate::model::lemma_find_transition_some(v2.transitions, k1);
    crate::model::lemma_find_transition_some(v2.transitions, k2);
    let i1 = choose|i: int|
        0 <= i < v2.transitions.len() && v2.transitions[i].0 == k1 && v2.transitions[i].1
            == transition_handle(v2, k1);
    let i2 = choose|i: int|
        0 <= i < v2.transitions.len() && v2.transitions[i].0 == k2 && v2.transitions[i].1
            == transition_handle(v2, k2);
    assert(i1 != i2);
}

/// Idempotent place identity: after folding any scenario into a
/// well-formed model, every place name it mentions has a node, and no
/// name ever has two — place identity is the name alone.
pub proof fn lemma_place_identity(
    v: ModelV,
    gs: Seq<Seq<char>>,
    action: Seq<char>,
    ts: Seq<Seq<char>>,
)
    requires
        wf(v),
    ensures
        ({
            let v2 = spec_add_step(v, gs, action, ts);
            &&& wf(v2)
            &&& forall|i: int| 0 <= i < gs.len() ==> has_place(v2, #[trigger] gs[i])
            &&& forall|i: int| 0 <= i < ts.len() ==> has_place(v2, #[trigger] ts[i])
            // at most one table entry per name, so "exactly one" node
            // for every name that occurs at all
            &&& forall|i: int, j: int|
                #![trigger v2.places[i], v2.places[j]]
                0 <= i < j < v2.places.len() ==> v2.places[i].0 != v2.places[j].0
        }),
{
    lemma_add_step_effect(v, gs, action, ts);
}

} // verus!
