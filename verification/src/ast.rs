//! The document tree produced by the parser, together with its
//! specification-level image (sequences of characters instead of strings).

use vstd::prelude::*;

verus! {

/// One GIVEN / WHEN / THEN line within a scenario, carrying the free
/// text that follows the keyword.
#[derive(Debug, PartialEq)]
pub enum GWTNode {
    Given(String),
    When(String),
    Then(String),
}

/// Specification image of a clause.
pub ghost enum ClauseV {
    Given(Seq<char>),
    When(Seq<char>),
    Then(Seq<char>),
}

impl View for GWTNode {
    type V = ClauseV;

    open spec fn view(&self) -> ClauseV {
        match self {
            GWTNode::Given(s) => ClauseV::Given(s@),
            GWTNode::When(s) => ClauseV::When(s@),
            GWTNode::Then(s) => ClauseV::Then(s@),
        }
    }
}

/// The clause views of a sequence of clauses, in order.
pub open spec fn clause_views(cs: Seq<GWTNode>) -> Seq<ClauseV> {
    cs.map(|i: int, c: GWTNode| c@)
}

/// One scenario: a STEP line with its clauses.  `indent` is the column
/// (count of leading spaces and tabs) where the STEP keyword starts.
#[derive(Debug, PartialEq)]
pub struct Step {
    pub name: String,
    pub gwt_list: Vec<GWTNode>,
    pub indent: usize,
}

/// Specification image of a scenario.
pub ghost struct StepV {
    pub name: Seq<char>,
    pub clauses: Seq<ClauseV>,
    pub indent: nat,
}

impl View for Step {
    type V = StepV;

    open spec fn view(&self) -> StepV {
        StepV { name: self.name@, clauses: clause_views(self.gwt_list@), indent: self.indent as nat }
    }
}

/// The step views of a sequence of steps, in order.
pub open spec fn step_views(ss: Seq<Step>) -> Seq<StepV> {
    ss.map(|i: int, st: Step| st@)
}

/// A named collection of sibling scenarios sharing one indentation column.
#[derive(Debug, PartialEq)]
pub struct Group {
    pub name: String,
    pub steps: Vec<Step>,
    pub indent: usize,
}

/// Specification image of a group.
pub ghost struct GroupV {
    pub name: Seq<char>,
    pub steps: Seq<StepV>,
    pub indent: nat,
}

impl View for Group {
    type V = GroupV;

    open spec fn view(&self) -> GroupV {
        GroupV { name: self.name@, steps: step_views(self.steps@), indent: self.indent as nat }
    }
}

/// A top-level entry: either a group of scenarios or a bare scenario.
#[derive(Debug, PartialEq)]
pub enum GSNode {
    Group(Group),
    Step(Step),
}

/// Specification image of a top-level entry.
pub ghost enum EntryV {
    Group(GroupV),
    Step(StepV),
}

impl View for GSNode {
    type V = EntryV;

    open spec fn view(&self) -> EntryV {
        match self {
            GSNode::Group(g) => EntryV::Group(g@),
            GSNode::Step(s) => EntryV::Step(s@),
        }
    }
}

/// The entry views of a sequence of entries, in order.
pub open spec fn entry_views(es: Seq<GSNode>) -> Seq<EntryV> {
    es.map(|i: int, e: GSNode| e@)
}

/// The column at which an entry's own keyword stands.
pub open spec fn entry_indent(e: EntryV) -> nat {
    match e {
        EntryV::Group(g) => g.indent,
        EntryV::Step(st) => st.indent,
    }
}

/// A whole document: the required WORKING_ON header value followed by
/// the ordered top-level entries.
#[derive(Debug, PartialEq)]
pub struct AST {
    pub working_on: String,
    pub nodes: Vec<GSNode>,
}

/// Specification image of a document.
pub ghost struct AstV {
    pub working_on: Seq<char>,
    pub nodes: Seq<EntryV>,
}

impl View for AST {
    type V = AstV;

    open spec fn view(&self) -> AstV {
        AstV { working_on: self.working_on@, nodes: entry_views(self.nodes@) }
    }
}

/// The string views of a sequence of strings, in order.
pub open spec fn names_view(ss: Seq<String>) -> Seq<Seq<char>> {
    ss.map(|i: int, s: String| s@)
}

/// The texts of the GIVEN clauses, in order.
pub open spec fn givens_of(cs: Seq<ClauseV>) -> Seq<Seq<char>>
    decreases cs.len(),
{
    if cs.len() == 0 {
        Seq::<Seq<char>>::empty()
    } else {
        let rest = givens_of(cs.drop_first());
        match cs[0] {
            ClauseV::Given(g) => seq![g] + rest,
            _ => rest,
        }
    }
}

/// The texts of all WHEN clauses, concatenated in order with no
/// separator: the scenario's collapsed action text.
pub open spec fn whens_of(cs: Seq<ClauseV>) -> Seq<char>
    decreases cs.len(),
{
    if cs.len() == 0 {
        Seq::<char>::empty()
    } else {
        let rest = whens_of(cs.drop_first());
        match cs[0] {
            ClauseV::When(w) => w + rest,
            _ => rest,
        }
    }
}

/// The texts of the THEN clauses, in order.
pub open spec fn thens_of(cs: Seq<ClauseV>) -> Seq<Seq<char>>
    decreases cs.len(),
{
    if cs.len() == 0 {
        Seq::<Seq<char>>::empty()
    } else {
        let rest = thens_of(cs.drop_first());
        match cs[0] {
            ClauseV::Then(t) => seq![t] + rest,
            _ => rest,
        }
    }
}

/// A failed parse: the whole source text, the source's logical name,
/// and the place of the offending token.  `at` and `at_len` count
/// characters, not bytes (one token character, or length zero at the
/// end of the text); a consumer that needs byte offsets converts them
/// against `src`.
#[derive(Debug)]
pub struct SyntaxError {
    pub src: String,
    pub name: String,
    pub at: usize,
    pub at_len: usize,
}

} // verus!
