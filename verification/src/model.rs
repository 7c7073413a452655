//! The graph builder: folds scenarios into a deduplicated bipartite
//! graph of places and transitions.  The node store is petgraph's
//! directed graph (see `pgraph`); node identity lives solely in the
//! two dedup tables, which map a place name, or a transition key, to
//! the handle of its single node.

use vstd::prelude::*;
use vstd::string::*;
use crate::pgraph::{graph_nodes, graph_edges, graph_new, graph_add_node, graph_add_edge,
    graph_node_count, graph_edge_count, graph_edge_list};
use crate::ast::{AST, GSNode, StepV, EntryV, ClauseV, givens_of, whens_of, thens_of, names_view,
    entry_views, step_views};
use crate::parser::compress_step;

verus! {

/// Weight stored on every place node.
pub const PLACE_WEIGHT: u64 = 0;

/// Weight stored on every transition node.
pub const TRANSITION_WEIGHT: u64 = 1;

/// Node index cap of the u32-indexed graph: one below the u32 sentinel.
pub const NODE_CAP: usize = 0xFFFF_FFFF;

/// A transition's identity: the action text, or a per-build serial
/// number for a scenario with no action text, which is never merged
/// with any other transition.
#[derive(Debug)]
pub enum Transition {
    Named(String),
    Empty(usize),
}

/// Specification image of a transition key.
pub ghost enum TransitionV {
    Named(Seq<char>),
    Empty(nat),
}

impl View for Transition {
    type V = TransitionV;

    open spec fn view(&self) -> TransitionV {
        match self {
            Transition::Named(s) => TransitionV::Named(s@),
            Transition::Empty(n) => TransitionV::Empty(*n as nat),
        }
    }
}

impl Transition {
    /// An equal key holding fresh owned data.
    pub fn duplicate(&self) -> (r: Transition)
        ensures
            r@ == self@,
    {
        match self {
            Transition::Named(s) => Transition::Named(s.clone()),
            Transition::Empty(n) => Transition::Empty(*n),
        }
    }
}

/// Specification image of the whole model: the two dedup tables, the
/// node weights in handle order, the edges in insertion order, and the
/// serial counter for textless transitions.
pub ghost struct ModelV {
    pub places: Seq<(Seq<char>, nat)>,
    pub transitions: Seq<(TransitionV, nat)>,
    pub nodes: Seq<u64>,
    pub edges: Seq<(nat, nat)>,
    pub counter: nat,
}

/// The model a fresh build starts from.
pub open spec fn empty_model() -> ModelV {
    ModelV {
        places: Seq::<(Seq<char>, nat)>::empty(),
        transitions: Seq::<(TransitionV, nat)>::empty(),
        nodes: Seq::<u64>::empty(),
        edges: Seq::<(nat, nat)>::empty(),
        counter: 0,
    }
}

/// The handle of the first table entry for `name`, if any.
pub open spec fn find_place(ps: Seq<(Seq<char>, nat)>, name: Seq<char>) -> Option<nat>
    decreases ps.len(),
{
    if ps.len() == 0 {
        None
    } else if ps[0].0 == name {
        Some(ps[0].1)
    } else {
        find_place(ps.drop_first(), name)
    }
}

/// The handle of the first table entry for `key`, if any.
pub open spec fn find_transition(ts: Seq<(TransitionV, nat)>, key: TransitionV) -> Option<nat>
    decreases ts.len(),
{
    if ts.len() == 0 {
        None
    } else if ts[0].0 == key {
        Some(ts[0].1)
    } else {
        find_transition(ts.drop_first(), key)
    }
}

/// Resolve or create the place node for `name`: the only way a place
/// node ever comes into being.
pub open spec fn spec_add_place(v: ModelV, name: Seq<char>) -> (ModelV, nat) {
    match find_place(v.places, name) {
        Some(h) => (v, h),
        None => (
            ModelV {
                places: v.places.push((name, v.nodes.len())),
                nodes: v.nodes.push(PLACE_WEIGHT),
                ..v
            },
            v.nodes.len(),
        ),
    }
}

/// Resolve or create the transition node for `key`.
pub open spec fn spec_add_transition(v: ModelV, key: TransitionV) -> (ModelV, nat) {
    match find_transition(v.transitions, key) {
        Some(h) => (v, h),
        None => (
            ModelV {
                transitions: v.transitions.push((key, v.nodes.len())),
                nodes: v.nodes.push(TRANSITION_WEIGHT),
                ..v
            },
            v.nodes.len(),
        ),
    }
}

/// One precondition edge: place, then transition, then `place -> transition`.
pub open spec fn spec_connect_gt(v: ModelV, given: Seq<char>, key: TransitionV) -> ModelV {
    let (v1, p) = spec_add_place(v, given);
    let (v2, t) = spec_add_transition(v1, key);
    ModelV { edges: v2.edges.push((p, t)), ..v2 }
}

/// One result edge: transition, then place, then `transition -> place`.
pub open spec fn spec_connect_tp(v: ModelV, key: TransitionV, to: Seq<char>) -> ModelV {
    let (v1, t) = spec_add_transition(v, key);
    let (v2, p) = spec_add_place(v1, to);
    ModelV { edges: v2.edges.push((t, p)), ..v2 }
}

/// The transition key of a scenario, and the model after drawing it:
/// an empty action text takes a fresh serial number, anything else the
/// text itself.
pub open spec fn spec_step_key(v: ModelV, action: Seq<char>) -> (TransitionV, ModelV) {
    if action.len() == 0 {
        (TransitionV::Empty((v.counter + 1) as nat), ModelV { counter: (v.counter + 1) as nat, ..v })
    } else {
        (TransitionV::Named(action), v)
    }
}

/// Connect every given-text to the transition, in order.
pub open spec fn spec_fold_givens(v: ModelV, gs: Seq<Seq<char>>, key: TransitionV) -> ModelV
    decreases gs.len(),
{
    if gs.len() == 0 {
        v
    } else {
        spec_fold_givens(spec_connect_gt(v, gs[0], key), gs.drop_first(), key)
    }
}

/// Connect the transition to every then-text, in order.
pub open spec fn spec_fold_thens(v: ModelV, ts: Seq<Seq<char>>, key: TransitionV) -> ModelV
    decreases ts.len(),
{
    if ts.len() == 0 {
        v
    } else {
        spec_fold_thens(spec_connect_tp(v, key, ts[0]), ts.drop_first(), key)
    }
}

/// One scenario folded into the model, exactly as `Model::add_step`
/// performs it: the transition node is resolved or created first,
/// whether or not any clause will connect to it, then the edges are
/// drawn.
pub open spec fn spec_add_step(
    v: ModelV,
    gs: Seq<Seq<char>>,
    action: Seq<char>,
    ts: Seq<Seq<char>>,
) -> ModelV {
    let (key, v0) = spec_step_key(v, action);
    let v1 = spec_add_transition(v0, key).0;
    spec_fold_thens(spec_fold_givens(v1, gs, key), ts, key)
}

/// One edge is well formed when it joins a place node and a transition
/// node, in either direction.
pub open spec fn edge_wf(v: ModelV, e: (nat, nat)) -> bool {
    &&& e.0 < v.nodes.len()
    &&& e.1 < v.nodes.len()
    &&& ((v.nodes[e.0 as int] == PLACE_WEIGHT && v.nodes[e.1 as int] == TRANSITION_WEIGHT) || (
    v.nodes[e.0 as int] == TRANSITION_WEIGHT && v.nodes[e.1 as int] == PLACE_WEIGHT))
}

/// The model's invariant: each table holds at most one entry per
/// identity and per handle, every handle points at a node of the
/// matching kind, every node belongs to exactly one table entry, every
/// edge joins a place and a transition, and every serial number ever
/// handed out is at most the counter.
pub open spec fn wf(v: ModelV) -> bool {
    &&& forall|i: int, j: int|
        #![trigger v.places[i], v.places[j]]
        0 <= i < j < v.places.len() ==> v.places[i].0 != v.places[j].0 && v.places[i].1
            != v.places[j].1
    &&& forall|i: int, j: int|
        #![trigger v.transitions[i], v.transitions[j]]
        0 <= i < j < v.transitions.len() ==> v.transitions[i].0 != v.transitions[j].0
            && v.transitions[i].1 != v.transitions[j].1
    &&& forall|i: int|
        #![trigger v.places[i]]
        0 <= i < v.places.len() ==> v.places[i].1 < v.nodes.len() && v.nodes[v.places[i].1 as int]
            == PLACE_WEIGHT
    &&& forall|i: int|
        #![trigger v.transitions[i]]
        0 <= i < v.transitions.len() ==> v.transitions[i].1 < v.nodes.len()
            && v.nodes[v.transitions[i].1 as int] == TRANSITION_WEIGHT
    &&& v.nodes.len() == v.places.len() + v.transitions.len()
    &&& forall|i: int| #![trigger v.edges[i]] 0 <= i < v.edges.len() ==> edge_wf(v, v.edges[i])
    &&& forall|i: int|
        #![trigger v.transitions[i]]
        0 <= i < v.transitions.len() ==> (v.transitions[i].0 matches TransitionV::Empty(n) ==> 1
            <= n <= v.counter)
}

/// The deduplicated bipartite graph, built one scenario at a time.
pub struct Model {
    graph: petgraph::graph::Graph<u64, u64, petgraph::Directed, u32>,
    place_table: Vec<(String, usize)>,
    transition_table: Vec<(Transition, usize)>,
    empty_transition: usize,
}

impl View for Model {
    type V = ModelV;

    closed spec fn view(&self) -> ModelV {
        ModelV {
            places: self.place_table@.map(|i: int, p: (String, usize)| (p.0@, p.1 as nat)),
            transitions: self.transition_table@.map(
                |i: int, p: (Transition, usize)| (p.0@, p.1 as nat),
            ),
            nodes: graph_nodes(self.graph),
            edges: graph_edges(self.graph).map(|i: int, e: (usize, usize)| (e.0 as nat, e.1 as nat)),
            counter: self.empty_transition as nat,
        }
    }
}

/// Character-by-character string equality.
#[verifier::loop_isolation(false)]
fn str_eq(a: &str, b: &str) -> (r: bool)
    ensures
        r == (a@ == b@),
{
    let n = a.unicode_len();
    let m = b.unicode_len();
    if n != m {
        return false;
    }
    let mut i: usize = 0;
    while i < n
        invariant
            0 <= i <= n,
            n == a@.len(),
            n == b@.len(),
            forall|j: int| 0 <= j < i ==> a@[j] == b@[j],
        decreases n - i,
    {
        if a.get_char(i) != b.get_char(i) {
            return false;
        }
        i = i + 1;
    }
    proof {
        assert(a@ =~= b@);
    }
    true
}

/// Key equality for transitions.
fn trans_eq(a: &Transition, b: &Transition) -> (r: bool)
    ensures
        r == (a@ == b@),
{
    match (a, b) {
        (Transition::Named(x), Transition::Named(y)) => str_eq(x.as_str(), y.as_str()),
        (Transition::Empty(n), Transition::Empty(m)) => *n == *m,
        _ => false,
    }
}

impl Model {
    /// A model with no nodes, no edges and a zeroed serial counter.
    pub fn new() -> (m: Model)
        ensures
            m@ == empty_model(),
            wf(m@),
    {
        let m = Model {
            graph: graph_new(),
            place_table: Vec::new(),
            transition_table: Vec::new(),
            empty_transition: 0,
        };
        proof {
            assert(m@.places =~= empty_model().places);
            assert(m@.transitions =~= empty_model().transitions);
            assert(m@.edges =~= empty_model().edges);
        }
        m
    }

    /// Resolve the node handle for a place name, or create the node on
    /// its first occurrence.
    #[verifier::loop_isolation(false)]
    pub fn add_place(&mut self, place_name: &str) -> (ix: usize)
        requires
            wf(old(self)@),
            old(self)@.nodes.len() < NODE_CAP,
        ensures
            final(self)@ == spec_add_place(old(self)@, place_name@).0,
            ix as nat == spec_add_place(old(self)@, place_name@).1,
            wf(final(self)@),
    {
        proof {
            lemma_add_place(old(self)@, place_name@);
        }
        let n = self.place_table.len();
        let mut i: usize = 0;
        while i < n
            invariant
                0 <= i <= n,
                n == self.place_table@.len(),
                forall|j: int| 0 <= j < i ==> self@.places[j].0 != place_name@,
            decreases n - i,
        {
            if str_eq(self.place_table[i].0.as_str(), place_name) {
                proof {
                    lemma_find_place_at(self@.places, place_name@, i as int);
                }
                return self.place_table[i].1;
            }
            i = i + 1;
        }
        proof {
            lemma_find_place_none(self@.places, place_name@);
        }
        let ghost prev = self@;
        let ix = graph_add_node(&mut self.graph, PLACE_WEIGHT);
        self.place_table.push((place_name.to_owned(), ix));
        proof {
            assert(self@.places =~= prev.places.push((place_name@, prev.nodes.len())));
            assert(self@.edges =~= prev.edges);
            assert(self@ == spec_add_place(prev, place_name@).0);
        }
        ix
    }

    /// Resolve the node handle for a transition key, or create the
    /// node on its first occurrence.
    #[verifier::loop_isolation(false)]
    pub fn add_transition(&mut self, transition: &Transition) -> (ix: usize)
        requires
            wf(old(self)@),
            key_ok(old(self)@, transition@),
            old(self)@.nodes.len() < NODE_CAP,
        ensures
            final(self)@ == spec_add_transition(old(self)@, transition@).0,
            ix as nat == spec_add_transition(old(self)@, transition@).1,
            wf(final(self)@),
    {
        proof {
            lemma_add_transition(old(self)@, transition@);
        }
        let n = self.transition_table.len();
        let mut i: usize = 0;
        while i < n
            invariant
                0 <= i <= n,
                n == self.transition_table@.len(),
                forall|j: int| 0 <= j < i ==> self@.transitions[j].0 != transition@,
            decreases n - i,
        {
            if trans_eq(&self.transition_table[i].0, transition) {
                proof {
                    lemma_find_transition_at(self@.transitions, transition@, i as int);
                }
                return self.transition_table[i].1;
            }
            i = i + 1;
        }
        proof {
            lemma_find_transition_none(self@.transitions, transition@);
        }
        let ghost prev = self@;
        let ix = graph_add_node(&mut self.graph, TRANSITION_WEIGHT);
        self.transition_table.push((transition.duplicate(), ix));
        proof {
            assert(self@.transitions =~= prev.transitions.push((transition@, prev.nodes.len())));
            assert(self@.edges =~= prev.edges);
            assert(self@ == spec_add_transition(prev, transition@).0);
        }
        ix
    }

    /// Draw the precondition edge `given -> transition`, creating
    /// either node on first reference.
    pub fn connect_to_transition(&mut self, given: &str, when: &Transition)
        requires
            wf(old(self)@),
            key_ok(old(self)@, when@),
            old(self)@.nodes.len() + 2 <= NODE_CAP,
            old(self)@.edges.len() < NODE_CAP,
        ensures
            final(self)@ == spec_connect_gt(old(self)@, given@, when@),
            wf(final(self)@),
    {
        proof {
            lemma_connect_gt(old(self)@, given@, when@);
            lemma_add_place(old(self)@, given@);
        }
        let from = self.add_place(given);
        proof {
            lemma_add_transition(self@, when@);
        }
        let to = self.add_transition(when);
        let ghost prev = self@;
        graph_add_edge(&mut self.graph, from, to);
        proof {
            assert(self@.edges =~= prev.edges.push((from as nat, to as nat)));
            assert(self@ == spec_connect_gt(old(self)@, given@, when@));
        }
    }

    /// Draw the result edge `transition -> to`, creating either node
    /// on first reference.
    pub fn connect_to_place(&mut self, when: &Transition, to: &str)
        requires
            wf(old(self)@),
            key_ok(old(self)@, when@),
            old(self)@.nodes.len() + 2 <= NODE_CAP,
            old(self)@.edges.len() < NODE_CAP,
        ensures
            final(self)@ == spec_connect_tp(old(self)@, when@, to@),
            wf(final(self)@),
    {
        proof {
            lemma_connect_tp(old(self)@, when@, to@);
            lemma_add_transition(old(self)@, when@);
        }
        let from = self.add_transition(when);
        proof {
            lemma_add_place(self@, to@);
        }
        let to_ix = self.add_place(to);
        let ghost prev = self@;
        graph_add_edge(&mut self.graph, from, to_ix);
        proof {
            assert(self@.edges =~= prev.edges.push((from as nat, to_ix as nat)));
            assert(self@ == spec_connect_tp(old(self)@, when@, to@));
        }
    }

    /// Fold one scenario into the model: pick the transition identity
    /// (the action text, or a fresh serial number when it is empty),
    /// resolve or create its node whether or not any clause will
    /// connect to it, then connect every given-text into it and it
    /// into every then-text, in order.
    #[verifier::loop_isolation(false)]
    pub fn add_step(&mut self, given: &[String], when: &str, thens: &[String])
        requires
            wf(old(self)@),
            old(self)@.nodes.len() + 2 * (given@.len() + thens@.len()) + 1 <= NODE_CAP,
            old(self)@.edges.len() + given@.len() + thens@.len() <= NODE_CAP,
            old(self)@.counter < usize::MAX,
        ensures
            final(self)@ == spec_add_step(
                old(self)@,
                names_view(given@),
                when@,
                names_view(thens@),
            ),
            wf(final(self)@),
    {
        let key: Transition = if when.unicode_len() == 0 {
            self.empty_transition = self.empty_transition + 1;
            Transition::Empty(self.empty_transition)
        } else {
            Transition::Named(when.to_owned())
        };
        let ghost v0 = self@;
        let ghost gs = names_view(given@);
        let ghost ts = names_view(thens@);
        proof {
            assert((key@, v0) == spec_step_key(old(self)@, when@));
            lemma_add_transition(v0, key@);
        }
        // the scenario's transition node exists whether or not any
        // clause will connect to it
        let _key_node = self.add_transition(&key);
        let ghost vk = self@;
        proof {
            assert(vk == spec_add_transition(v0, key@).0);
            assert(gs.subrange(0, gs.len() as int) =~= gs);
        }
        let mut i: usize = 0;
        while i < given.len()
            invariant
                0 <= i <= given.len(),
                gs == names_view(given@),
                ts == names_view(thens@),
                wf(self@),
                key_ok(self@, key@),
                spec_fold_givens(vk, gs, key@) == spec_fold_givens(
                    self@,
                    gs.subrange(i as int, gs.len() as int),
                    key@,
                ),
                self@.nodes.len() <= vk.nodes.len() + 2 * i,
                self@.edges.len() == vk.edges.len() + i,
                self@.counter == vk.counter,
                vk.nodes.len() + 2 * (gs.len() + ts.len()) <= NODE_CAP,
                vk.edges.len() + gs.len() + ts.len() <= NODE_CAP,
            decreases given@.len() - i,
        {
            let ghost rem = gs.subrange(i as int, gs.len() as int);
            proof {
                lemma_connect_gt(self@, given@[i as int]@, key@);
                assert(rem[0] == gs[i as int]);
                assert(rem.drop_first() =~= gs.subrange(i as int + 1, gs.len() as int));
            }
            self.connect_to_transition(given[i].as_str(), &key);
            i = i + 1;
        }
        proof {
            assert(gs.subrange(gs.len() as int, gs.len() as int) =~= Seq::<Seq<char>>::empty());
            assert(self@ == spec_fold_givens(vk, gs, key@));
            assert(ts.subrange(0, ts.len() as int) =~= ts);
        }
        let ghost v1 = self@;
        let mut k: usize = 0;
        while k < thens.len()
            invariant
                0 <= k <= thens.len(),
                ts == names_view(thens@),
                wf(self@),
                key_ok(self@, key@),
                spec_fold_thens(v1, ts, key@) == spec_fold_thens(
                    self@,
                    ts.subrange(k as int, ts.len() as int),
                    key@,
                ),
                self@.nodes.len() <= v1.nodes.len() + 2 * k,
                self@.edges.len() == v1.edges.len() + k,
                v1.nodes.len() + 2 * ts.len() <= NODE_CAP,
                v1.edges.len() + ts.len() <= NODE_CAP,
            decreases thens@.len() - k,
        {
            let ghost rem = ts.subrange(k as int, ts.len() as int);
            proof {
                lemma_connect_tp(self@, key@, thens@[k as int]@);
                assert(rem[0] == ts[k as int]);
                assert(rem.drop_first() =~= ts.subrange(k as int + 1, ts.len() as int));
            }
            self.connect_to_place(&key, thens[k].as_str());
            k = k + 1;
        }
        proof {
            assert(ts.subrange(ts.len() as int, ts.len() as int) =~= Seq::<Seq<char>>::empty());
            assert(self@ == spec_fold_thens(v1, ts, key@));
        }
    }

    /// The handle of the place node with this name, if one exists.
    #[verifier::loop_isolation(false)]
    pub fn get_node(&self, node_name: &str) -> (r: Option<usize>)
        ensures
            match r {
                Some(ix) => find_place(self@.places, node_name@) == Some(ix as nat),
                None => find_place(self@.places, node_name@) is None,
            },
    {
        let n = self.place_table.len();
        let mut i: usize = 0;
        while i < n
            invariant
                0 <= i <= n,
                n == self.place_table@.len(),
                forall|j: int| 0 <= j < i ==> self@.places[j].0 != node_name@,
            decreases n - i,
        {
            if str_eq(self.place_table[i].0.as_str(), node_name) {
                proof {
                    lemma_find_place_at(self@.places, node_name@, i as int);
                }
                return Some(self.place_table[i].1);
            }
            i = i + 1;
        }
        proof {
            lemma_find_place_none(self@.places, node_name@);
        }
        None
    }

    /// The place table: every place name with its node handle, in
    /// creation order.
    pub fn places(&self) -> (r: &Vec<(String, usize)>)
        ensures
            self@.places == r@.map(|i: int, p: (String, usize)| (p.0@, p.1 as nat)),
    {
        &self.place_table
    }

    /// The transition table: every transition key with its node
    /// handle, in creation order.
    pub fn transitions(&self) -> (r: &Vec<(Transition, usize)>)
        ensures
            self@.transitions == r@.map(|i: int, p: (Transition, usize)| (p.0@, p.1 as nat)),
    {
        &self.transition_table
    }

    /// The edges as (source handle, target handle), in insertion order.
    pub fn edges(&self) -> (r: Vec<(usize, usize)>)
        ensures
            self@.edges == r@.map(|i: int, e: (usize, usize)| (e.0 as nat, e.1 as nat)),
    {
        graph_edge_list(&self.graph)
    }

    /// The number of nodes of either kind.
    pub fn node_count(&self) -> (n: usize)
        ensures
            n as nat == self@.nodes.len(),
    {
        graph_node_count(&self.graph)
    }

    /// The number of edges.
    pub fn edge_count(&self) -> (n: usize)
        ensures
            n as nat == self@.edges.len(),
    {
        graph_edge_count(&self.graph)
    }
}

impl Default for Model {
    /// Same as `Model::new`.
    fn default() -> (m: Model)
        ensures
            m@ == empty_model(),
            wf(m@),
    {
        Model::new()
    }
}

pub proof fn lemma_find_place_at(ps: Seq<(Seq<char>, nat)>, name: Seq<char>, i: int)
    requires
        0 <= i < ps.len(),
        ps[i].0 == name,
        forall|j: int| 0 <= j < i ==> ps[j].0 != name,
    ensures
        find_place(ps, name) == Some(ps[i].1),
    decreases ps.len(),
{
    if i > 0 {
        lemma_find_place_at(ps.drop_first(), name, i - 1);
    }
}

pub proof fn lemma_find_place_none(ps: Seq<(Seq<char>, nat)>, name: Seq<char>)
    ensures
        (find_place(ps, name) is None) <==> (forall|j: int|
            0 <= j < ps.len() ==> ps[j].0 != name),
    decreases ps.len(),
{
    if ps.len() == 0 {
    } else if ps[0].0 == name {
    } else {
        lemma_find_place_none(ps.drop_first(), name);
        if find_place(ps, name) is None {
            assert forall|j: int| 0 <= j < ps.len() implies ps[j].0 != name by {
                if j > 0 {
                    assert(ps.drop_first()[j - 1] == ps[j]);
                }
            }
        } else {
            let j = choose|j: int|
                0 <= j < ps.drop_first().len() && ps.drop_first()[j].0 == name;
            assert(ps[j + 1].0 == name);
        }
    }
}

pub proof fn lemma_find_place_some(ps: Seq<(Seq<char>, nat)>, name: Seq<char>)
    ensures
        find_place(ps, name) matches Some(h) ==> exists|i: int|
            0 <= i < ps.len() && ps[i].0 == name && ps[i].1 == h,
    decreases ps.len(),
{
    if ps.len() > 0 {
        lemma_find_place_some(ps.drop_first(), name);
        if ps[0].0 != name && find_place(ps.drop_first(), name) is Some {
            let h = find_place(ps.drop_first(), name)->Some_0;
            let i = choose|i: int|
                0 <= i < ps.drop_first().len() && ps.drop_first()[i].0 == name
                    && ps.drop_first()[i].1 == h;
            assert(ps[i + 1].0 == name && ps[i + 1].1 == h);
        }
    }
}

pub proof fn lemma_find_transition_at(ts: Seq<(TransitionV, nat)>, key: TransitionV, i: int)
    requires
        0 <= i < ts.len(),
        ts[i].0 == key,
        forall|j: int| 0 <= j < i ==> ts[j].0 != key,
    ensures
        find_transition(ts, key) == Some(ts[i].1),
    decreases ts.len(),
{
    if i > 0 {
        lemma_find_transition_at(ts.drop_first(), key, i - 1);
    }
}

pub proof fn lemma_find_transition_none(ts: Seq<(TransitionV, nat)>, key: TransitionV)
    ensures
        (find_transition(ts, key) is None) <==> (forall|j: int|
            0 <= j < ts.len() ==> ts[j].0 != key),
    decreases ts.len(),
{
    if ts.len() == 0 {
    } else if ts[0].0 == key {
    } else {
        lemma_find_transition_none(ts.drop_first(), key);
        if find_transition(ts, key) is None {
            assert forall|j: int| 0 <= j < ts.len() implies ts[j].0 != key by {
                if j > 0 {
                    assert(ts.drop_first()[j - 1] == ts[j]);
                }
            }
        } else {
            let j = choose|j: int|
                0 <= j < ts.drop_first().len() && ts.drop_first()[j].0 == key;
            assert(ts[j + 1].0 == key);
        }
    }
}

pub proof fn lemma_find_transition_some(ts: Seq<(TransitionV, nat)>, key: TransitionV)
    ensures
        find_transition(ts, key) matches Some(h) ==> exists|i: int|
            0 <= i < ts.len() && ts[i].0 == key && ts[i].1 == h,
    decreases ts.len(),
{
    if ts.len() > 0 {
        lemma_find_transition_some(ts.drop_first(), key);
        if ts[0].0 != key && find_transition(ts.drop_first(), key) is Some {
            let h = find_transition(ts.drop_first(), key)->Some_0;
            let i = choose|i: int|
                0 <= i < ts.drop_first().len() && ts.drop_first()[i].0 == key
                    && ts.drop_first()[i].1 == h;
            assert(ts[i + 1].0 == key && ts[i + 1].1 == h);
        }
    }
}

/// Effect and invariance of resolving or creating a place node.
pub proof fn lemma_add_place(v: ModelV, name: Seq<char>)
    requires
        wf(v),
    ensures
        ({
            let (v2, h) = spec_add_place(v, name);
            &&& wf(v2)
            &&& v2.transitions == v.transitions
            &&& v2.edges == v.edges
            &&& v2.counter == v.counter
            &&& v.nodes.len() <= v2.nodes.len() <= v.nodes.len() + 1
            &&& v2.nodes.subrange(0, v.nodes.len() as int) == v.nodes
            &&& v.places.len() <= v2.places.len()
            &&& v2.places.subrange(0, v.places.len() as int) == v.places
            &&& h < v2.nodes.len() && v2.nodes[h as int] == PLACE_WEIGHT
            &&& find_place(v2.places, name) == Some(h)
            &&& forall|n2: Seq<char>|
                #![trigger find_place(v2.places, n2)]
                find_place(v.places, n2) is Some ==> find_place(v2.places, n2) == find_place(
                    v.places,
                    n2,
                )
        }),
{
    let (v2, h) = spec_add_place(v, name);
    match find_place(v.places, name) {
        Some(h0) => {
            lemma_find_place_some(v.places, name);
            assert(v2.places.subrange(0, v.places.len() as int) =~= v.places);
            assert(v2.nodes.subrange(0, v.nodes.len() as int) =~= v.nodes);
        },
        None => {
            lemma_find_place_none(v.places, name);
            lemma_find_place_at(v2.places, name, v.places.len() as int);
            assert(v2.places.subrange(0, v.places.len() as int) =~= v.places);
            assert(v2.nodes.subrange(0, v.nodes.len() as int) =~= v.nodes);
            assert forall|i: int| 0 <= i < v2.edges.len() implies edge_wf(v2, v2.edges[i]) by {
                assert(edge_wf(v, v.edges[i]));
            }
            assert forall|n2: Seq<char>|
                find_place(v.places, n2) is Some implies #[trigger] find_place(v2.places, n2)
                == find_place(v.places, n2) by {
                lemma_find_place_push(v.places, (name, v.nodes.len() as nat), n2);
            }
            assert(wf(v2));
        },
    }
}

pub proof fn lemma_find_place_push(ps: Seq<(Seq<char>, nat)>, p: (Seq<char>, nat), n: Seq<char>)
    ensures
        find_place(ps.push(p), n) == (match find_place(ps, n) {
            Some(h) => Some(h),
            None => if p.0 == n {
                Some(p.1)
            } else {
                None
            },
        }),
    decreases ps.len(),
{
    if ps.len() == 0 {
        assert(ps.push(p)[0] == p);
        assert(ps.push(p).drop_first() =~= Seq::<(Seq<char>, nat)>::empty());
    } else {
        assert(ps.push(p)[0] == ps[0]);
        assert(ps.push(p).drop_first() =~= ps.drop_first().push(p));
        lemma_find_place_push(ps.drop_first(), p, n);
        if ps[0].0 == n {
            assert(find_place(ps.push(p), n) == Some(ps[0].1));
        } else {
            assert(find_place(ps.push(p), n) == find_place(ps.drop_first().push(p), n));
        }
    }
}

pub proof fn lemma_find_transition_push(
    ts: Seq<(TransitionV, nat)>,
    p: (TransitionV, nat),
    k: TransitionV,
)
    ensures
        find_transition(ts.push(p), k) == (match find_transition(ts, k) {
            Some(h) => Some(h),
            None => if p.0 == k {
                Some(p.1)
            } else {
                None
            },
        }),
    decreases ts.len(),
{
    reveal_with_fuel(find_transition, 3);
    if ts.len() == 0 {
        assert(ts.push(p)[0] == p);
        assert(ts.push(p).drop_first() =~= Seq::<(TransitionV, nat)>::empty());
    } else {
        assert(ts.push(p)[0] == ts[0]);
        assert(ts.push(p).drop_first() =~= ts.drop_first().push(p));
        lemma_find_transition_push(ts.drop_first(), p, k);
        if ts[0].0 == k {
            assert(find_transition(ts.push(p), k) == Some(ts[0].1));
        } else {
            assert(find_transition(ts.push(p), k) == find_transition(
                ts.drop_first().push(p),
                k,
            ));
        }
    }
}

/// Effect and invariance of resolving or creating a transition node.
pub proof fn lemma_add_transition(v: ModelV, key: TransitionV)
    requires
        wf(v),
        key_ok(v, key),
    ensures
        ({
            let (v2, h) = spec_add_transition(v, key);
            &&& wf(v2)
            &&& v2.places == v.places
            &&& v2.edges == v.edges
            &&& v2.counter == v.counter
            &&& v.nodes.len() <= v2.nodes.len() <= v.nodes.len() + 1
            &&& v2.nodes.subrange(0, v.nodes.len() as int) == v.nodes
            &&& v.transitions.len() <= v2.transitions.len()
            &&& v2.transitions.subrange(0, v.transitions.len() as int) == v.transitions
            &&& h < v2.nodes.len() && v2.nodes[h as int] == TRANSITION_WEIGHT
            &&& find_transition(v2.transitions, key) == Some(h)
            &&& forall|k2: TransitionV|
                #![trigger find_transition(v2.transitions, k2)]
                find_transition(v.transitions, k2) is Some ==> find_transition(v2.transitions, k2)
                    == find_transition(v.transitions, k2)
        }),
{
    let (v2, h) = spec_add_transition(v, key);
    match find_transition(v.transitions, key) {
        Some(h0) => {
            lemma_find_transition_some(v.transitions, key);
            assert(v2.transitions.subrange(0, v.transitions.len() as int) =~= v.transitions);
            assert(v2.nodes.subrange(0, v.nodes.len() as int) =~= v.nodes);
        },
        None => {
            lemma_find_transition_none(v.transitions, key);
            lemma_find_transition_at(v2.transitions, key, v.transitions.len() as int);
            assert(v2.transitions.subrange(0, v.transitions.len() as int) =~= v.transitions);
            assert(v2.nodes.subrange(0, v.nodes.len() as int) =~= v.nodes);
            assert forall|i: int| 0 <= i < v2.edges.len() implies edge_wf(v2, v2.edges[i]) by {
                assert(edge_wf(v, v.edges[i]));
            }
            assert forall|k2: TransitionV|
                find_transition(v.transitions, k2) is Some implies #[trigger] find_transition(
                v2.transitions,
                k2,
            ) == find_transition(v.transitions, k2) by {
                lemma_find_transition_push(v.transitions, (key, v.nodes.len() as nat), k2);
            }
        },
    }
}

/// Well-formedness of a transition key freshly drawn or already known.
pub open spec fn key_ok(v: ModelV, key: TransitionV) -> bool {
    match key {
        TransitionV::Named(_) => true,
        TransitionV::Empty(sn) => 1 <= sn <= v.counter,
    }
}

/// Effect and invariance of one precondition edge.
pub proof fn lemma_connect_gt(v: ModelV, given: Seq<char>, key: TransitionV)
    requires
        wf(v),
        key_ok(v, key),
    ensures
        ({
            let v2 = spec_connect_gt(v, given, key);
            &&& wf(v2)
            &&& v2.counter == v.counter
            &&& v.nodes.len() <= v2.nodes.len() <= v.nodes.len() + 2
            &&& v2.nodes.subrange(0, v.nodes.len() as int) == v.nodes
            &&& v.places.len() <= v2.places.len()
            &&& v2.places.subrange(0, v.places.len() as int) == v.places
            &&& v.transitions.len() <= v2.transitions.len()
            &&& v2.transitions.subrange(0, v.transitions.len() as int) == v.transitions
            &&& key_ok(v2, key)
            &&& (has_transition(v, key) ==> v2.transitions == v.transitions)
            &&& (!has_transition(v, key) ==> v2.transitions.len() == v.transitions.len() + 1)
            &&& forall|i: int|
                #![trigger v2.transitions[i]]
                v.transitions.len() <= i < v2.transitions.len() ==> v2.transitions[i].0 == key
            &&& find_place(v2.places, given) is Some
            &&& find_transition(v2.transitions, key) is Some
            &&& v2.edges == v.edges.push(
                (
                    find_place(v2.places, given)->Some_0,
                    find_transition(v2.transitions, key)->Some_0,
                ),
            )
            &&& forall|n2: Seq<char>|
                #![trigger find_place(v2.places, n2)]
                find_place(v.places, n2) is Some ==> find_place(v2.places, n2) == find_place(
                    v.places,
                    n2,
                )
            &&& forall|k2: TransitionV|
                #![trigger find_transition(v2.transitions, k2)]
                find_transition(v.transitions, k2) is Some ==> find_transition(v2.transitions, k2)
                    == find_transition(v.transitions, k2)
        }),
{
    lemma_add_place(v, given);
    let (va, p) = spec_add_place(v, given);
    lemma_add_transition(va, key);
    let (vb, t) = spec_add_transition(va, key);
    let v2 = spec_connect_gt(v, given, key);
    assert(v2.edges =~= v.edges.push((p, t)));
    assert forall|i: int| 0 <= i < v2.edges.len() implies edge_wf(v2, v2.edges[i]) by {
        if i < v.edges.len() {
            assert(edge_wf(v, v.edges[i]));
            assert(v2.nodes.subrange(0, v.nodes.len() as int) =~= v.nodes);
        }
    }
}

/// Effect and invariance of one result edge.
pub proof fn lemma_connect_tp(v: ModelV, key: TransitionV, to: Seq<char>)
    requires
        wf(v),
        key_ok(v, key),
    ensures
        ({
            let v2 = spec_connect_tp(v, key, to);
            &&& wf(v2)
            &&& v2.counter == v.counter
            &&& v.nodes.len() <= v2.nodes.len() <= v.nodes.len() + 2
            &&& v2.nodes.subrange(0, v.nodes.len() as int) == v.nodes
            &&& v.places.len() <= v2.places.len()
            &&& v2.places.subrange(0, v.places.len() as int) == v.places
            &&& v.transitions.len() <= v2.transitions.len()
            &&& v2.transitions.subrange(0, v.transitions.len() as int) == v.transitions
            &&& key_ok(v2, key)
            &&& (has_transition(v, key) ==> v2.transitions == v.transitions)
            &&& (!has_transition(v, key) ==> v2.transitions.len() == v.transitions.len() + 1)
            &&& forall|i: int|
                #![trigger v2.transitions[i]]
                v.transitions.len() <= i < v2.transitions.len() ==> v2.transitions[i].0 == key
            &&& find_place(v2.places, to) is Some
            &&& find_transition(v2.transitions, key) is Some
            &&& v2.edges == v.edges.push(
                (
                    find_transition(v2.transitions, key)->Some_0,
                    find_place(v2.places, to)->Some_0,
                ),
            )
            &&& forall|n2: Seq<char>|
                #![trigger find_place(v2.places, n2)]
                find_place(v.places, n2) is Some ==> find_place(v2.places, n2) == find_place(
                    v.places,
                    n2,
                )
            &&& forall|k2: TransitionV|
                #![trigger find_transition(v2.transitions, k2)]
                find_transition(v.transitions, k2) is Some ==> find_transition(v2.transitions, k2)
                    == find_transition(v.transitions, k2)
        }),
{
    lemma_add_transition(v, key);
    let (va, t) = spec_add_transition(v, key);
    lemma_add_place(va, to);
    let (vb, p) = spec_add_place(va, to);
    let v2 = spec_connect_tp(v, key, to);
    assert(v2.edges =~= v.edges.push((t, p)));
    assert forall|i: int| 0 <= i < v2.edges.len() implies edge_wf(v2, v2.edges[i]) by {
        if i < v.edges.len() {
            assert(edge_wf(v, v.edges[i]));
            assert(v2.nodes.subrange(0, v.nodes.len() as int) =~= v.nodes);
        }
    }
}


/// A place name that has a node.
pub open spec fn has_place(v: ModelV, name: Seq<char>) -> bool {
    find_place(v.places, name) is Some
}

/// The handle of the place node for `name` (meaningful under
/// `has_place`).
pub open spec fn place_handle(v: ModelV, name: Seq<char>) -> nat {
    find_place(v.places, name)->Some_0
}

/// A transition key that has a node.
pub open spec fn has_transition(v: ModelV, key: TransitionV) -> bool {
    find_transition(v.transitions, key) is Some
}

/// The handle of the transition node for `key` (meaningful under
/// `has_transition`).
pub open spec fn transition_handle(v: ModelV, key: TransitionV) -> nat {
    find_transition(v.transitions, key)->Some_0
}

/// The builder never removes or rewrites what it inserted: `v2` keeps
/// every table entry, node and edge of `v` at its old position, and
/// every identity already resolved keeps its handle.
pub open spec fn extends(v: ModelV, v2: ModelV) -> bool {
    &&& v.places.len() <= v2.places.len()
    &&& v2.places.subrange(0, v.places.len() as int) == v.places
    &&& v.transitions.len() <= v2.transitions.len()
    &&& v2.transitions.subrange(0, v.transitions.len() as int) == v.transitions
    &&& v.edges.len() <= v2.edges.len()
    &&& v2.edges.subrange(0, v.edges.len() as int) == v.edges
    &&& v.nodes.len() <= v2.nodes.len()
    &&& v2.nodes.subrange(0, v.nodes.len() as int) == v.nodes
    &&& forall|n2: Seq<char>|
        #![trigger find_place(v2.places, n2)]
        find_place(v.places, n2) is Some ==> find_place(v2.places, n2) == find_place(v.places, n2)
    &&& forall|k2: TransitionV|
        #![trigger find_transition(v2.transitions, k2)]
        find_transition(v.transitions, k2) is Some ==> find_transition(v2.transitions, k2)
            == find_transition(v.transitions, k2)
}

pub proof fn lemma_extends_refl(v: ModelV)
    ensures
        extends(v, v),
{
    assert(v.places.subrange(0, v.places.len() as int) =~= v.places);
    assert(v.transitions.subrange(0, v.transitions.len() as int) =~= v.transitions);
    assert(v.edges.subrange(0, v.edges.len() as int) =~= v.edges);
    assert(v.nodes.subrange(0, v.nodes.len() as int) =~= v.nodes);
}

pub proof fn lemma_extends_trans(a: ModelV, b: ModelV, c: ModelV)
    requires
        extends(a, b),
        extends(b, c),
    ensures
        extends(a, c),
{
    assert forall|i: int| 0 <= i < a.places.len() implies c.places[i] == a.places[i] by {
        assert(b.places[i] == b.places.subrange(0, a.places.len() as int)[i]);
        assert(c.places[i] == c.places.subrange(0, b.places.len() as int)[i]);
    }
    assert(c.places.subrange(0, a.places.len() as int) =~= a.places);
    assert forall|i: int| 0 <= i < a.transitions.len() implies c.transitions[i]
        == a.transitions[i] by {
        assert(b.transitions[i] == b.transitions.subrange(0, a.transitions.len() as int)[i]);
        assert(c.transitions[i] == c.transitions.subrange(0, b.transitions.len() as int)[i]);
    }
    assert(c.transitions.subrange(0, a.transitions.len() as int) =~= a.transitions);
    assert forall|i: int| 0 <= i < a.edges.len() implies c.edges[i] == a.edges[i] by {
        assert(b.edges[i] == b.edges.subrange(0, a.edges.len() as int)[i]);
        assert(c.edges[i] == c.edges.subrange(0, b.edges.len() as int)[i]);
    }
    assert(c.edges.subrange(0, a.edges.len() as int) =~= a.edges);
    assert forall|i: int| 0 <= i < a.nodes.len() implies c.nodes[i] == a.nodes[i] by {
        assert(b.nodes[i] == b.nodes.subrange(0, a.nodes.len() as int)[i]);
        assert(c.nodes[i] == c.nodes.subrange(0, b.nodes.len() as int)[i]);
    }
    assert(c.nodes.subrange(0, a.nodes.len() as int) =~= a.nodes);
    assert forall|n2: Seq<char>|
        find_place(a.places, n2) is Some implies #[trigger] find_place(c.places, n2) == find_place(
        a.places,
        n2,
    ) by {
        assert(find_place(b.places, n2) == find_place(a.places, n2));
    }
    assert forall|k2: TransitionV|
        find_transition(a.transitions, k2) is Some implies #[trigger] find_transition(
        c.transitions,
        k2,
    ) == find_transition(a.transitions, k2) by {
        assert(find_transition(b.transitions, k2) == find_transition(a.transitions, k2));
    }
}

pub proof fn lemma_extends_contains(a: ModelV, b: ModelV, e: (nat, nat))
    requires
        extends(a, b),
        a.edges.contains(e),
    ensures
        b.edges.contains(e),
{
    let i = choose|i: int| 0 <= i < a.edges.len() && a.edges[i] == e;
    assert(b.edges[i] == b.edges.subrange(0, a.edges.len() as int)[i]);
    assert(b.edges[i] == e);
}

/// Effect and invariance of connecting every given-text, in order.
pub proof fn lemma_fold_givens(v: ModelV, gs: Seq<Seq<char>>, key: TransitionV)
    requires
        wf(v),
        key_ok(v, key),
    ensures
        ({
            let v2 = spec_fold_givens(v, gs, key);
            &&& wf(v2)
            &&& key_ok(v2, key)
            &&& v2.counter == v.counter
            &&& extends(v, v2)
            &&& v2.nodes.len() <= v.nodes.len() + 2 * gs.len()
            &&& v2.edges.len() == v.edges.len() + gs.len()
            &&& v2.transitions.len() <= v.transitions.len() + 1
            &&& (has_transition(v, key) ==> v2.transitions == v.transitions)
            &&& forall|i: int|
                #![trigger v2.transitions[i]]
                v.transitions.len() <= i < v2.transitions.len() ==> v2.transitions[i].0 == key
            &&& gs.len() > 0 ==> has_transition(v2, key)
            &&& forall|i: int| 0 <= i < gs.len() ==> has_place(v2, #[trigger] gs[i])
            &&& forall|i: int|
                0 <= i < gs.len() ==> #[trigger] v2.edges.contains(
                    (place_handle(v2, gs[i]), transition_handle(v2, key)),
                )
        }),
    decreases gs.len(),
{
    let v2 = spec_fold_givens(v, gs, key);
    if gs.len() == 0 {
        lemma_extends_refl(v);
    } else {
        lemma_connect_gt(v, gs[0], key);
        let va = spec_connect_gt(v, gs[0], key);
        assert(va.edges.subrange(0, v.edges.len() as int) =~= v.edges);
        assert(extends(v, va));
        lemma_fold_givens(va, gs.drop_first(), key);
        lemma_extends_trans(v, va, v2);
        assert(gs.drop_first().len() == gs.len() - 1);
        // the transition keeps its handle from `va` on
        assert(find_transition(v2.transitions, key) == find_transition(va.transitions, key));
        // the first given keeps its place handle from `va` on
        assert(find_place(v2.places, gs[0]) == find_place(va.places, gs[0]));
        let e0 = (place_handle(va, gs[0]), transition_handle(va, key));
        assert(va.edges[v.edges.len() as int] == e0);
        assert(va.edges.contains(e0));
        lemma_extends_contains(va, v2, e0);
        assert forall|i: int| 0 <= i < gs.len() implies has_place(v2, #[trigger] gs[i]) by {
            if i == 0 {
                assert(find_place(v2.places, gs[0]) == find_place(va.places, gs[0]));
            } else {
                assert(gs.drop_first()[i - 1] == gs[i]);
                assert(has_place(v2, gs.drop_first()[i - 1]));
            }
        }
        assert forall|i: int| 0 <= i < gs.len() implies #[trigger] v2.edges.contains(
            (place_handle(v2, gs[i]), transition_handle(v2, key)),
        ) by {
            if i == 0 {
                assert(place_handle(v2, gs[0]) == place_handle(va, gs[0]));
                assert(transition_handle(v2, key) == transition_handle(va, key));
            } else {
                assert(gs.drop_first()[i - 1] == gs[i]);
                assert(v2.edges.contains(
                    (place_handle(v2, gs.drop_first()[i - 1]), transition_handle(v2, key)),
                ));
            }
        }
        // new transition entries all carry this key
        assert forall|i: int|
            v.transitions.len() <= i < v2.transitions.len() implies #[trigger] v2.transitions[i].0
            == key by {
            if i < va.transitions.len() {
                assert(v2.transitions[i] == v2.transitions.subrange(
                    0,
                    va.transitions.len() as int,
                )[i]);
                assert(v2.transitions[i] == va.transitions[i]);
            }
        }
    }
}

/// Effect and invariance of connecting the transition to every
/// then-text, in order.
pub proof fn lemma_fold_thens(v: ModelV, ts: Seq<Seq<char>>, key: TransitionV)
    requires
        wf(v),
        key_ok(v, key),
    ensures
        ({
            let v2 = spec_fold_thens(v, ts, key);
            &&& wf(v2)
            &&& key_ok(v2, key)
            &&& v2.counter == v.counter
            &&& extends(v, v2)
            &&& v2.nodes.len() <= v.nodes.len() + 2 * ts.len()
            &&& v2.edges.len() == v.edges.len() + ts.len()
            &&& v2.transitions.len() <= v.transitions.len() + 1
            &&& (has_transition(v, key) ==> v2.transitions == v.transitions)
            &&& forall|i: int|
                #![trigger v2.transitions[i]]
                v.transitions.len() <= i < v2.transitions.len() ==> v2.transitions[i].0 == key
            &&& ts.len() > 0 ==> has_transition(v2, key)
            &&& forall|i: int| 0 <= i < ts.len() ==> has_place(v2, #[trigger] ts[i])
            &&& forall|i: int|
                0 <= i < ts.len() ==> #[trigger] v2.edges.contains(
                    (transition_handle(v2, key), place_handle(v2, ts[i])),
                )
        }),
    decreases ts.len(),
{
    let v2 = spec_fold_thens(v, ts, key);
    if ts.len() == 0 {
        lemma_extends_refl(v);
    } else {
        lemma_connect_tp(v, key, ts[0]);
        let va = spec_connect_tp(v, key, ts[0]);
        assert(va.edges.subrange(0, v.edges.len() as int) =~= v.edges);
        assert(extends(v, va));
        lemma_fold_thens(va, ts.drop_first(), key);
        lemma_extends_trans(v, va, v2);
        assert(ts.drop_first().len() == ts.len() - 1);
        assert(find_transition(v2.transitions, key) == find_transition(va.transitions, key));
        assert(find_place(v2.places, ts[0]) == find_place(va.places, ts[0]));
        let e0 = (transition_handle(va, key), place_handle(va, ts[0]));
        assert(va.edges[v.edges.len() as int] == e0);
        assert(va.edges.contains(e0));
        lemma_extends_contains(va, v2, e0);
        assert forall|i: int| 0 <= i < ts.len() implies has_place(v2, #[trigger] ts[i]) by {
            if i == 0 {
                assert(find_place(v2.places, ts[0]) == find_place(va.places, ts[0]));
            } else {
                assert(ts.drop_first()[i - 1] == ts[i]);
                assert(has_place(v2, ts.drop_first()[i - 1]));
            }
        }
        assert forall|i: int| 0 <= i < ts.len() implies #[trigger] v2.edges.contains(
            (transition_handle(v2, key), place_handle(v2, ts[i])),
        ) by {
            if i == 0 {
                assert(place_handle(v2, ts[0]) == place_handle(va, ts[0]));
                assert(transition_handle(v2, key) == transition_handle(va, key));
            } else {
                assert(ts.drop_first()[i - 1] == ts[i]);
                assert(v2.edges.contains(
                    (transition_handle(v2, key), place_handle(v2, ts.drop_first()[i - 1])),
                ));
            }
        }
        assert forall|i: int|
            v.transitions.len() <= i < v2.transitions.len() implies #[trigger] v2.transitions[i].0
            == key by {
            if i < va.transitions.len() {
                assert(v2.transitions[i] == v2.transitions.subrange(
                    0,
                    va.transitions.len() as int,
                )[i]);
                assert(v2.transitions[i] == va.transitions[i]);
            }
        }
    }
}

/// Effect and invariance of folding one whole scenario.
pub proof fn lemma_add_step_effect(
    v: ModelV,
    gs: Seq<Seq<char>>,
    action: Seq<char>,
    ts: Seq<Seq<char>>,
)
    requires
        wf(v),
    ensures
        ({
            let key = spec_step_key(v, action).0;
            let v2 = spec_add_step(v, gs, action, ts);
            &&& wf(v2)
            &&& extends(v, v2)
            &&& v2.counter == (if action.len() == 0 {
                v.counter + 1
            } else {
                v.counter
            })
            &&& v2.nodes.len() <= v.nodes.len() + 2 * (gs.len() + ts.len()) + 1
            &&& v2.edges.len() == v.edges.len() + gs.len() + ts.len()
            &&& v2.transitions.len() <= v.transitions.len() + 1
            &&& forall|i: int|
                #![trigger v2.transitions[i]]
                v.transitions.len() <= i < v2.transitions.len() ==> v2.transitions[i].0 == key
            &&& has_transition(v2, key)
            &&& forall|i: int| 0 <= i < gs.len() ==> has_place(v2, #[trigger] gs[i])
            &&& forall|i: int| 0 <= i < ts.len() ==> has_place(v2, #[trigger] ts[i])
            &&& forall|i: int|
                0 <= i < gs.len() ==> #[trigger] v2.edges.contains(
                    (place_handle(v2, gs[i]), transition_handle(v2, key)),
                )
            &&& forall|i: int|
                0 <= i < ts.len() ==> #[trigger] v2.edges.contains(
                    (transition_handle(v2, key), place_handle(v2, ts[i])),
                )
        }),
{
    let (key, v0) = spec_step_key(v, action);
    let v2 = spec_add_step(v, gs, action, ts);
    assert(wf(v0));
    assert(key_ok(v0, key));
    lemma_extends_refl(v);
    assert(extends(v, v0));
    lemma_add_transition(v0, key);
    let vk = spec_add_transition(v0, key).0;
    assert(vk.edges.subrange(0, v0.edges.len() as int) =~= v0.edges);
    assert(extends(v0, vk));
    lemma_fold_givens(vk, gs, key);
    let v1 = spec_fold_givens(vk, gs, key);
    lemma_fold_thens(v1, ts, key);
    lemma_extends_trans(v, v0, vk);
    lemma_extends_trans(v, vk, v1);
    lemma_extends_trans(v, v1, v2);
    // the given-side places and edges survive the then-side fold
    assert forall|i: int| 0 <= i < gs.len() implies has_place(v2, #[trigger] gs[i]) by {
        assert(has_place(v1, gs[i]));
        assert(find_place(v2.places, gs[i]) == find_place(v1.places, gs[i]));
    }
    assert forall|i: int| 0 <= i < gs.len() implies #[trigger] v2.edges.contains(
        (place_handle(v2, gs[i]), transition_handle(v2, key)),
    ) by {
        assert(v1.edges.contains((place_handle(v1, gs[i]), transition_handle(v1, key))));
        assert(find_place(v2.places, gs[i]) == find_place(v1.places, gs[i]));
        assert(find_transition(v2.transitions, key) == find_transition(v1.transitions, key));
        lemma_extends_contains(v1, v2, (place_handle(v1, gs[i]), transition_handle(v1, key)));
    }
    // new transition entries all carry this key
    assert forall|i: int|
        v.transitions.len() <= i < v2.transitions.len() implies #[trigger] v2.transitions[i].0
        == key by {
        if i < v1.transitions.len() {
            assert(v2.transitions[i] == v2.transitions.subrange(0, v1.transitions.len() as int)[i]);
            assert(v2.transitions[i] == v1.transitions[i]);
        }
    }
}


/// Upper bound on the nodes, edges and serial numbers one scenario can
/// cost: two per clause, plus two.
pub open spec fn step_cost(st: StepV) -> nat {
    2 * st.clauses.len() + 2
}

pub open spec fn steps_cost(ss: Seq<StepV>) -> nat
    decreases ss.len(),
{
    if ss.len() == 0 {
        0
    } else {
        step_cost(ss[0]) + steps_cost(ss.drop_first())
    }
}

pub open spec fn entry_cost(e: EntryV) -> nat {
    match e {
        EntryV::Step(st) => step_cost(st),
        EntryV::Group(g) => steps_cost(g.steps),
    }
}

pub open spec fn entries_cost(es: Seq<EntryV>) -> nat
    decreases es.len(),
{
    if es.len() == 0 {
        0
    } else {
        entry_cost(es[0]) + entries_cost(es.drop_first())
    }
}

/// A scenario's clauses split into at most as many given- and
/// then-texts as there are clauses.
pub proof fn lemma_clause_split_len(cs: Seq<ClauseV>)
    ensures
        givens_of(cs).len() + thens_of(cs).len() <= cs.len(),
    decreases cs.len(),
{
    if cs.len() > 0 {
        lemma_clause_split_len(cs.drop_first());
    }
}

/// One scenario folded into the model, by its clause list.
pub open spec fn spec_build_step(v: ModelV, st: StepV) -> ModelV {
    spec_add_step(v, givens_of(st.clauses), whens_of(st.clauses), thens_of(st.clauses))
}

pub open spec fn spec_build_steps(v: ModelV, ss: Seq<StepV>) -> ModelV
    decreases ss.len(),
{
    if ss.len() == 0 {
        v
    } else {
        spec_build_steps(spec_build_step(v, ss[0]), ss.drop_first())
    }
}

pub open spec fn spec_build_entry(v: ModelV, e: EntryV) -> ModelV {
    match e {
        EntryV::Step(st) => spec_build_step(v, st),
        EntryV::Group(g) => spec_build_steps(v, g.steps),
    }
}

/// A whole document folded into the model: every scenario, flattened
/// out of its group where it has one, in document order.
pub open spec fn spec_build_entries(v: ModelV, es: Seq<EntryV>) -> ModelV
    decreases es.len(),
{
    if es.len() == 0 {
        v
    } else {
        spec_build_entries(spec_build_entry(v, es[0]), es.drop_first())
    }
}

/// Fold a parsed document into a fresh model, one scenario at a time,
/// in document order.  The bound on the document's cost keeps the
/// node and edge counts inside the graph's u32 index space.
#[verifier::loop_isolation(false)]
pub fn build_model(ast: AST) -> (m: Model)
    requires
        entries_cost(entry_views(ast.nodes@)) <= NODE_CAP,
    ensures
        m@ == spec_build_entries(empty_model(), entry_views(ast.nodes@)),
        wf(m@),
{
    let ghost full = entry_views(ast.nodes@);
    let mut m = Model::new();
    let mut rest = ast.nodes;
    while rest.len() > 0
        invariant
            wf(m@),
            spec_build_entries(empty_model(), full) == spec_build_entries(
                m@,
                entry_views(rest@),
            ),
            m@.nodes.len() + entries_cost(entry_views(rest@)) <= NODE_CAP,
            m@.edges.len() + entries_cost(entry_views(rest@)) <= NODE_CAP,
            m@.counter + entries_cost(entry_views(rest@)) <= NODE_CAP,
        decreases rest@.len(),
    {
        let ghost old_rest = rest@;
        let e = rest.remove(0);
        proof {
            assert(old_rest.remove(0) =~= old_rest.drop_first());
            assert(entry_views(old_rest) =~= seq![e@] + entry_views(rest@));
            assert((seq![e@] + entry_views(rest@)).drop_first() =~= entry_views(rest@));
            assert(spec_build_entries(m@, entry_views(old_rest)) == spec_build_entries(
                spec_build_entry(m@, e@),
                entry_views(rest@),
            ));
        }
        match e {
            GSNode::Step(st) => {
                let ghost stv = st@;
                proof {
                    lemma_clause_split_len(stv.clauses);
                    lemma_add_step_effect(
                        m@,
                        givens_of(stv.clauses),
                        whens_of(stv.clauses),
                        thens_of(stv.clauses),
                    );
                }
                let (gs, w, ts) = compress_step(st);
                m.add_step(gs.as_slice(), w.as_str(), ts.as_slice());
            },
            GSNode::Group(g) => {
                let ghost gv = g@;
                let ghost vg = m@;
                let mut steps = g.steps;
                proof {
                    assert(step_views(steps@) == gv.steps);
                }
                while steps.len() > 0
                    invariant
                        wf(m@),
                        spec_build_steps(vg, gv.steps) == spec_build_steps(
                            m@,
                            step_views(steps@),
                        ),
                        m@.nodes.len() + steps_cost(step_views(steps@)) + entries_cost(
                            entry_views(rest@),
                        ) <= NODE_CAP,
                        m@.edges.len() + steps_cost(step_views(steps@)) + entries_cost(
                            entry_views(rest@),
                        ) <= NODE_CAP,
                        m@.counter + steps_cost(step_views(steps@)) + entries_cost(
                            entry_views(rest@),
                        ) <= NODE_CAP,
                    decreases steps@.len(),
                {
                    let ghost old_steps = steps@;
                    let st = steps.remove(0);
                    proof {
                        assert(old_steps.remove(0) =~= old_steps.drop_first());
                        assert(step_views(old_steps) =~= seq![st@] + step_views(steps@));
                        assert((seq![st@] + step_views(steps@)).drop_first() =~= step_views(
                            steps@,
                        ));
                        lemma_clause_split_len(st@.clauses);
                        lemma_add_step_effect(
                            m@,
                            givens_of(st@.clauses),
                            whens_of(st@.clauses),
                            thens_of(st@.clauses),
                        );
                    }
                    let (gs, w, ts) = compress_step(st);
                    m.add_step(gs.as_slice(), w.as_str(), ts.as_slice());
                }
                proof {
                    assert(step_views(steps@) =~= Seq::<StepV>::empty());
                    assert(m@ == spec_build_steps(vg, gv.steps));
                }
            },
        }
    }
    proof {
        assert(entry_views(rest@) =~= Seq::<EntryV>::empty());
    }
    m
}

} // verus!
