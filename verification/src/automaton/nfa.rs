use vstd::prelude::*;

use crate::parser::{node_states, Node};

verus! {

broadcast use vstd::seq_lib::lemma_seq_contains_after_push;

/// One state of a nondeterministic automaton: an opaque identifier, unique
/// within one build, with no meaning beyond identity.
#[derive(Clone, Copy, Debug, Eq, Hash, PartialEq, PartialOrd, Ord, Structural)]
pub struct NFAState(pub u32);

/// An edge of the transition relation: source, label, destination. A label
/// of `None` is an epsilon edge, taken without reading input.
pub type NfaEdge = (NFAState, Option<char>, NFAState);

pub open spec fn st(id: int) -> NFAState {
    NFAState(id as u32)
}

/// The epsilon edges that connect every state of `sources` to `target`.
pub open spec fn eps_edges_to(sources: Set<NFAState>, target: NFAState) -> Set<NfaEdge> {
    Set::new(|e: NfaEdge| sources.contains(e.0) && e.1 == None::<char> && e.2 == target)
}

/// A fragment of an automaton as mathematics: a start state, the accepting
/// states, and the edge relation.
pub ghost struct NfaShape {
    pub start: NFAState,
    pub accepts: Set<NFAState>,
    pub edges: Set<NfaEdge>,
}

/// Thompson's construction: the fragment an expression tree assembles to when
/// the next fresh state identifier is `n`, together with the identifier left
/// for whatever is built afterwards.
pub open spec fn spec_assemble(node: Node, n: int) -> (NfaShape, int)
    decreases node,
{
    match node {
        Node::Character(c) => (
            NfaShape {
                start: st(n),
                accepts: set![st(n + 1)],
                edges: set![(st(n), Some(c), st(n + 1))],
            },
            n + 2,
        ),
        Node::Empty => (
            NfaShape {
                start: st(n),
                accepts: set![st(n + 1)],
                edges: set![(st(n), None::<char>, st(n + 1))],
            },
            n + 2,
        ),
        Node::Star(child) => {
            let (f, n1) = spec_assemble(*child, n);
            (
                NfaShape {
                    start: st(n1),
                    accepts: f.accepts.insert(st(n1)),
                    edges: f.edges.insert((st(n1), None::<char>, f.start)).union(
                        eps_edges_to(f.accepts, f.start),
                    ),
                },
                n1 + 1,
            )
        }
        Node::Union(a, b) => {
            let (f1, n1) = spec_assemble(*a, n);
            let (f2, n2) = spec_assemble(*b, n1);
            (
                NfaShape {
                    start: st(n2),
                    accepts: f1.accepts.union(f2.accepts),
                    edges: f1.edges.union(f2.edges).insert(
                        (st(n2), None::<char>, f1.start),
                    ).insert((st(n2), None::<char>, f2.start)),
                },
                n2 + 1,
            )
        }
        Node::Concat(a, b) => {
            let (f1, n1) = spec_assemble(*a, n);
            let (f2, n2) = spec_assemble(*b, n1);
            (
                NfaShape {
                    start: f1.start,
                    accepts: f2.accepts,
                    edges: f1.edges.union(f2.edges).union(eps_edges_to(f1.accepts, f2.start)),
                },
                n2,
            )
        }
    }
}

/// The construction takes exactly `node_states(node)` fresh identifiers.
pub proof fn lemma_assemble_count(node: Node, n: int)
    ensures
        spec_assemble(node, n).1 == n + node_states(node),
    decreases node,
{
    match node {
        Node::Character(_) => {}
        Node::Empty => {}
        Node::Star(child) => {
            lemma_assemble_count(*child, n);
        }
        Node::Union(a, b) => {
            lemma_assemble_count(*a, n);
            lemma_assemble_count(*b, n + node_states(*a));
        }
        Node::Concat(a, b) => {
            lemma_assemble_count(*a, n);
            lemma_assemble_count(*b, n + node_states(*a));
        }
    }
}

/// Every tree takes at least its two leaf states.
pub proof fn lemma_node_states_pos(node: Node)
    ensures
        node_states(node) >= 2,
    decreases node,
{
    match node {
        Node::Character(_) => {}
        Node::Empty => {}
        Node::Star(child) => {
            lemma_node_states_pos(*child);
        }
        Node::Union(a, b) => {
            lemma_node_states_pos(*a);
            lemma_node_states_pos(*b);
        }
        Node::Concat(a, b) => {
            lemma_node_states_pos(*a);
            lemma_node_states_pos(*b);
        }
    }
}

/// Hands out the fresh state identifiers of one build, in increasing order.
pub struct Context {
    state_count: u32,
}

impl Context {
    pub closed spec fn count(self) -> int {
        self.state_count as int
    }

    pub fn new() -> (r: Context)
        ensures
            r.count() == 0,
    {
        Context { state_count: 0 }
    }

    pub fn new_state(&mut self) -> (r: NFAState)
        requires
            old(self).count() < u32::MAX,
        ensures
            final(self).count() == old(self).count() + 1,
            r == st(old(self).count()),
    {
        let id = self.state_count;
        self.state_count = self.state_count + 1;
        NFAState(id)
    }
}

impl Node {
    /// Thompson's construction: assembles the fragment this tree denotes,
    /// drawing fresh states from `context`, exactly as `spec_assemble` says.
    pub fn assemble(&self, context: &mut Context) -> (r: NondeterministicFiniteAutomaton)
        requires
            old(context).count() + node_states(*self) <= u32::MAX,
        ensures
            final(context).count() == old(context).count() + node_states(*self),
            r.shape() == spec_assemble(*self, old(context).count()).0,
        decreases *self,
    {
        let ghost n0 = old(context).count();
        match self {
            Node::Character(c) => {
                let start = context.new_state();
                let accept = context.new_state();
                let mut accepts: Vec<NFAState> = Vec::new();
                accepts.push(accept);
                let r = NondeterministicFiniteAutomaton::new(start, accepts).add_transition(
                    start,
                    *c,
                    accept,
                );
                proof {
                    assert(r.accepts@.len() == 1 && r.accepts@[0] == accept);
                    assert(r.accept_set() =~= set![st(n0 + 1)]);
                    assert(r.edge_set() =~= set![(st(n0), Some(*c), st(n0 + 1))]);
                }
                r
            }
            Node::Empty => {
                let start = context.new_state();
                let accept = context.new_state();
                let mut accepts: Vec<NFAState> = Vec::new();
                accepts.push(accept);
                let r = NondeterministicFiniteAutomaton::new(start, accepts).add_empty_transition(
                    start,
                    accept,
                );
                proof {
                    assert(r.accepts@.len() == 1 && r.accepts@[0] == accept);
                    assert(r.accept_set() =~= set![st(n0 + 1)]);
                    assert(r.edge_set() =~= set![(st(n0), None::<char>, st(n0 + 1))]);
                }
                r
            }
            Node::Star(node) => {
                proof {
                    lemma_assemble_count(**node, n0);
                }
                let ghost f = spec_assemble(**node, n0).0;
                let ghost n1 = spec_assemble(**node, n0).1;
                let frag = node.assemble(context);
                let start = context.new_state();
                let mut accepts = copy_states(&frag.accepts);
                accepts.push(start);
                let mut nfa = NondeterministicFiniteAutomaton::new(start, accepts)
                    .merge_transition(&frag)
                    .add_empty_transition(start, frag.start);
                proof {
                    lemma_to_set_push(frag.accepts@.push(start));
                    assert(frag.accepts@.push(start).drop_last() =~= frag.accepts@);
                    assert(nfa.accept_set() =~= f.accepts.insert(st(n1)));
                    assert(frag.accepts@.take(0).to_set() =~= Set::<NFAState>::empty());
                    assert(eps_edges_to(frag.accepts@.take(0).to_set(), frag.start) =~= Set::<
                        NfaEdge,
                    >::empty());
                    assert(nfa.edge_set() =~= f.edges.insert((st(n1), None::<char>, f.start)).union(
                        eps_edges_to(frag.accepts@.take(0).to_set(), f.start),
                    ));
                }
                let mut i: usize = 0;
                while i < frag.accepts.len()
                    invariant
                        i <= frag.accepts@.len(),
                        frag.shape() == f,
                        frag.start == f.start,
                        nfa.start == st(n1),
                        nfa.accept_set() == f.accepts.insert(st(n1)),
                        nfa.edge_set() == f.edges.insert((st(n1), None::<char>, f.start)).union(
                            eps_edges_to(frag.accepts@.take(i as int).to_set(), f.start),
                        ),
                    decreases frag.accepts@.len() - i,
                {
                    let a = frag.accepts[i];
                    nfa = nfa.add_empty_transition(a, frag.start);
                    proof {
                        lemma_eps_take_step(frag.accepts@, i as int, f.start);
                        assert(nfa.edge_set() =~= f.edges.insert(
                            (st(n1), None::<char>, f.start),
                        ).union(eps_edges_to(frag.accepts@.take(i + 1).to_set(), f.start)));
                    }
                    i = i + 1;
                }
                proof {
                    assert(frag.accepts@.take(frag.accepts@.len() as int) =~= frag.accepts@);
                    assert(frag.accepts@.to_set() == f.accepts);
                    assert(nfa.edge_set() =~= spec_assemble(*self, n0).0.edges);
                }
                nfa
            }
            Node::Union(node1, node2) => {
                proof {
                    lemma_node_states_pos(**node1);
                    lemma_node_states_pos(**node2);
                    lemma_assemble_count(**node1, n0);
                }
                let ghost f1 = spec_assemble(**node1, n0).0;
                let ghost n1 = spec_assemble(**node1, n0).1;
                proof {
                    lemma_assemble_count(**node2, n1);
                }
                let ghost f2 = spec_assemble(**node2, n1).0;
                let ghost n2 = spec_assemble(**node2, n1).1;
                let frag1 = node1.assemble(context);
                let frag2 = node2.assemble(context);
                let start = context.new_state();
                let mut accepts = copy_states(&frag1.accepts);
                let mut i: usize = 0;
                while i < frag2.accepts.len()
                    invariant
                        i <= frag2.accepts@.len(),
                        accepts@ == frag1.accepts@ + frag2.accepts@.take(i as int),
                    decreases frag2.accepts@.len() - i,
                {
                    accepts.push(frag2.accepts[i]);
                    proof {
                        assert(accepts@ =~= frag1.accepts@ + frag2.accepts@.take(i + 1));
                    }
                    i = i + 1;
                }
                proof {
                    assert(frag2.accepts@.take(frag2.accepts@.len() as int) =~= frag2.accepts@);
                    lemma_to_set_concat(frag1.accepts@, frag2.accepts@);
                }
                let r = NondeterministicFiniteAutomaton::new(start, accepts)
                    .merge_transition(&frag1)
                    .merge_transition(&frag2)
                    .add_empty_transition(start, frag1.start)
                    .add_empty_transition(start, frag2.start);
                proof {
                    assert(r.accept_set() =~= f1.accepts.union(f2.accepts));
                    assert(r.edge_set() =~= f1.edges.union(f2.edges).insert(
                        (st(n2), None::<char>, f1.start),
                    ).insert((st(n2), None::<char>, f2.start)));
                }
                r
            }
            Node::Concat(node1, node2) => {
                proof {
                    lemma_node_states_pos(**node1);
                    lemma_node_states_pos(**node2);
                    lemma_assemble_count(**node1, n0);
                }
                let ghost f1 = spec_assemble(**node1, n0).0;
                let ghost n1 = spec_assemble(**node1, n0).1;
                proof {
                    lemma_assemble_count(**node2, n1);
                }
                let ghost f2 = spec_assemble(**node2, n1).0;
                let frag1 = node1.assemble(context);
                let frag2 = node2.assemble(context);
                let accepts = copy_states(&frag2.accepts);
                let mut fragment = NondeterministicFiniteAutomaton::new(frag1.start, accepts)
                    .merge_transition(&frag1)
                    .merge_transition(&frag2);
                proof {
                    assert(frag1.accepts@.take(0).to_set() =~= Set::<NFAState>::empty());
                    assert(eps_edges_to(frag1.accepts@.take(0).to_set(), f2.start) =~= Set::<
                        NfaEdge,
                    >::empty());
                    assert(fragment.edge_set() =~= f1.edges.union(f2.edges).union(
                        eps_edges_to(frag1.accepts@.take(0).to_set(), f2.start),
                    ));
                }
                let mut i: usize = 0;
                while i < frag1.accepts.len()
                    invariant
                        i <= frag1.accepts@.len(),
                        frag1.shape() == f1,
                        frag2.start == f2.start,
                        fragment.start == f1.start,
                        fragment.accept_set() == f2.accepts,
                        fragment.edge_set() == f1.edges.union(f2.edges).union(
                            eps_edges_to(frag1.accepts@.take(i as int).to_set(), f2.start),
                        ),
                    decreases frag1.accepts@.len() - i,
                {
                    let a = frag1.accepts[i];
                    fragment = fragment.add_empty_transition(a, frag2.start);
                    proof {
                        lemma_eps_take_step(frag1.accepts@, i as int, f2.start);
                        assert(fragment.edge_set() =~= f1.edges.union(f2.edges).union(
                            eps_edges_to(frag1.accepts@.take(i + 1).to_set(), f2.start),
                        ));
                    }
                    i = i + 1;
                }
                proof {
                    assert(frag1.accepts@.take(frag1.accepts@.len() as int) =~= frag1.accepts@);
                    assert(frag1.accepts@.to_set() == f1.accepts);
                    assert(fragment.edge_set() =~= spec_assemble(*self, n0).0.edges);
                }
                fragment
            }
        }
    }
}

/// A graph of states with labeled directed edges, one start state and a set
/// of accepting states. Multiple edges with one label from one state are
/// legal; all of them count.
#[derive(Debug)]
pub struct NondeterministicFiniteAutomaton {
    pub start: NFAState,
    pub accepts: Vec<NFAState>,
    pub transitions: Vec<NfaEdge>,
}

impl NondeterministicFiniteAutomaton {
    /// The transition relation, edge by edge.
    pub open spec fn edge_seq(self) -> Seq<NfaEdge> {
        self.transitions@
    }

    pub open spec fn edge_set(self) -> Set<NfaEdge> {
        self.edge_seq().to_set()
    }

    pub open spec fn has_edge(self, from: NFAState, label: Option<char>, to: NFAState) -> bool {
        self.edge_set().contains((from, label, to))
    }

    pub open spec fn accept_set(self) -> Set<NFAState> {
        self.accepts@.to_set()
    }

    /// The fragment this automaton is, as mathematics.
    pub open spec fn shape(self) -> NfaShape {
        NfaShape { start: self.start, accepts: self.accept_set(), edges: self.edge_set() }
    }

    pub fn new(start: NFAState, accepts: Vec<NFAState>) -> (r: Self)
        ensures
            r.start == start,
            r.accepts@ == accepts@,
            r.edge_set() == Set::<NfaEdge>::empty(),
    {
        let r = NondeterministicFiniteAutomaton { start, accepts, transitions: Vec::new() };
        proof {
            assert(r.edge_set() =~= Set::<NfaEdge>::empty());
        }
        r
    }

    /// Builds the automaton a whole expression tree denotes.
    pub fn from_node(node: Node) -> (r: Self)
        requires
            node_states(node) <= u32::MAX,
        ensures
            r.shape() == spec_assemble(node, 0).0,
    {
        node.assemble(&mut Context::new())
    }

    /// Every label on an edge out of `state`, each once.
    pub fn next_chars(&self, state: NFAState) -> (r: Vec<Option<char>>)
        ensures
            forall|label: Option<char>|
                r@.contains(label) <==> exists|to: NFAState| self.has_edge(state, label, to),
            r@.no_duplicates(),
    {
        let mut r: Vec<Option<char>> = Vec::new();
        let mut i: usize = 0;
        while i < self.transitions.len()
            invariant
                i <= self.edge_seq().len(),
                forall|label: Option<char>|
                    r@.contains(label) <==> exists|j: int|
                        0 <= j < i && (#[trigger] self.edge_seq()[j]).0 == state
                            && self.edge_seq()[j].1 == label,
                r@.no_duplicates(),
            decreases self.edge_seq().len() - i,
        {
            let e = self.transitions[i];
            if e.0 == state && !contains_label(&r, e.1) {
                r.push(e.1);
                proof {
                    assert((#[trigger] self.edge_seq()[i as int]).0 == state && self.edge_seq()[
                        i as int
                    ].1 == e.1);
                }
            }
            i = i + 1;
        }
        proof {
            assert forall|label: Option<char>|
                r@.contains(label) <==> exists|to: NFAState|
                    self.has_edge(state, label, to) by {
                if r@.contains(label) {
                    let j = choose|j: int|
                        0 <= j < self.edge_seq().len() && (#[trigger] self.edge_seq()[j]).0 == state
                            && self.edge_seq()[j].1 == label;
                    assert(self.edge_set().contains(self.edge_seq()[j]));
                    assert(self.has_edge(state, label, self.edge_seq()[j].2));
                }
                if exists|to: NFAState| self.has_edge(state, label, to) {
                    let to = choose|to: NFAState| self.has_edge(state, label, to);
                    let j = choose|j: int|
                        0 <= j < self.edge_seq().len() && self.edge_seq()[j] == (state, label, to);
                    assert((#[trigger] self.edge_seq()[j]).0 == state && self.edge_seq()[j].1
                        == label);
                }
            }
        }
        r
    }

    /// Every state one `label` edge away from `state`, each once.
    pub fn next_states(&self, state: NFAState, label: Option<char>) -> (r: Vec<NFAState>)
        ensures
            forall|to: NFAState| r@.contains(to) <==> self.has_edge(state, label, to),
            r@.no_duplicates(),
    {
        let mut r: Vec<NFAState> = Vec::new();
        let mut i: usize = 0;
        while i < self.transitions.len()
            invariant
                i <= self.edge_seq().len(),
                forall|to: NFAState|
                    r@.contains(to) <==> exists|j: int|
                        0 <= j < i && #[trigger] self.edge_seq()[j] == (state, label, to),
                r@.no_duplicates(),
            decreases self.edge_seq().len() - i,
        {
            let e = self.transitions[i];
            if e.0 == state && label_eq(e.1, label) && !contains_state(&r, e.2) {
                proof {
                    assert(self.edge_seq()[i as int] == (state, label, e.2));
                }
                r.push(e.2);
            }
            i = i + 1;
        }
        proof {
            assert forall|to: NFAState| r@.contains(to) <==> self.has_edge(state, label, to) by {
                if r@.contains(to) {
                    let j = choose|j: int|
                        0 <= j < self.edge_seq().len() && #[trigger] self.edge_seq()[j] == (
                            state,
                            label,
                            to,
                        );
                    assert(self.edge_set().contains(self.edge_seq()[j]));
                }
                if self.has_edge(state, label, to) {
                    let j = choose|j: int|
                        0 <= j < self.edge_seq().len() && self.edge_seq()[j] == (state, label, to);
                    assert(#[trigger] self.edge_seq()[j] == (state, label, to));
                }
            }
        }
        r
    }

    /// Adds one labeled edge.
    pub fn add_transition(self, from: NFAState, symbol: char, to: NFAState) -> (r: Self)
        ensures
            r.start == self.start,
            r.accepts@ == self.accepts@,
            r.edge_set() == self.edge_set().insert((from, Some(symbol), to)),
    {
        let mut s = self;
        s._insert_transition(from, to, Some(symbol));
        s
    }

    /// Adds one epsilon edge.
    pub fn add_empty_transition(self, from: NFAState, to: NFAState) -> (r: Self)
        ensures
            r.start == self.start,
            r.accepts@ == self.accepts@,
            r.edge_set() == self.edge_set().insert((from, None::<char>, to)),
    {
        let mut s = self;
        s._insert_transition(from, to, None);
        s
    }

    /// Takes every edge of `other` into this automaton's transition relation.
    /// The two state spaces are disjoint by construction, so this is how
    /// fragments are merged into larger ones.
    pub fn merge_transition(self, other: &Self) -> (r: Self)
        ensures
            r.start == self.start,
            r.accepts@ == self.accepts@,
            r.edge_set() == self.edge_set().union(other.edge_set()),
    {
        let mut s = self;
        let ghost orig = s.edge_set();
        let mut i: usize = 0;
        while i < other.transitions.len()
            invariant
                i <= other.edge_seq().len(),
                s.start == self.start,
                s.accepts@ == self.accepts@,
                s.edge_set() == orig.union(other.edge_seq().take(i as int).to_set()),
            decreases other.edge_seq().len() - i,
        {
            let e = other.transitions[i];
            s._insert_transition(e.0, e.2, e.1);
            proof {
                assert(other.edge_seq().take(i + 1).drop_last() =~= other.edge_seq().take(
                    i as int,
                ));
                lemma_to_set_push(other.edge_seq().take(i + 1));
                assert(s.edge_set() =~= orig.union(other.edge_seq().take(i + 1).to_set()));
            }
            i = i + 1;
        }
        proof {
            assert(other.edge_seq().take(other.edge_seq().len() as int) =~= other.edge_seq());
            assert(s.edge_set() =~= self.edge_set().union(other.edge_set()));
        }
        s
    }

    fn _insert_transition(&mut self, from: NFAState, to: NFAState, label: Option<char>)
        ensures
            final(self).start == old(self).start,
            final(self).accepts@ == old(self).accepts@,
            final(self).edge_set() == old(self).edge_set().insert((from, label, to)),
    {
        if !self.contains_edge(from, label, to) {
            self.transitions.push((from, label, to));
            proof {
                lemma_to_set_push(self.edge_seq());
                assert(self.edge_seq().drop_last() =~= old(self).edge_seq());
                assert(self.edge_set() =~= old(self).edge_set().insert((from, label, to)));
            }
        } else {
            proof {
                assert(self.edge_set() =~= old(self).edge_set().insert((from, label, to)));
            }
        }
    }

    fn contains_edge(&self, from: NFAState, label: Option<char>, to: NFAState) -> (r: bool)
        ensures
            r == self.has_edge(from, label, to),
    {
        let mut i: usize = 0;
        while i < self.transitions.len()
            invariant
                i <= self.edge_seq().len(),
                forall|j: int| 0 <= j < i ==> #[trigger] self.edge_seq()[j] != (from, label, to),
            decreases self.edge_seq().len() - i,
        {
            let e = self.transitions[i];
            if e.0 == from && label_eq(e.1, label) && e.2 == to {
                proof {
                    assert(self.edge_seq()[i as int] == (from, label, to));
                    assert(self.edge_set().contains((from, label, to)));
                }
                return true;
            }
            i = i + 1;
        }
        proof {
            if self.edge_set().contains((from, label, to)) {
                let j = choose|j: int|
                    0 <= j < self.edge_seq().len() && self.edge_seq()[j] == (from, label, to);
                assert(#[trigger] self.edge_seq()[j] == (from, label, to));
            }
        }
        false
    }
}

fn label_eq(a: Option<char>, b: Option<char>) -> (r: bool)
    ensures
        r == (a == b),
{
    match (a, b) {
        (None, None) => true,
        (Some(x), Some(y)) => x == y,
        _ => false,
    }
}

fn contains_state(v: &Vec<NFAState>, s: NFAState) -> (r: bool)
    ensures
        r == v@.contains(s),
{
    let mut i: usize = 0;
    while i < v.len()
        invariant
            i <= v@.len(),
            forall|j: int| 0 <= j < i ==> v@[j] != s,
        decreases v@.len() - i,
    {
        if v[i] == s {
            return true;
        }
        i = i + 1;
    }
    false
}

fn contains_label(v: &Vec<Option<char>>, l: Option<char>) -> (r: bool)
    ensures
        r == v@.contains(l),
{
    let mut i: usize = 0;
    while i < v.len()
        invariant
            i <= v@.len(),
            forall|j: int| 0 <= j < i ==> v@[j] != l,
        decreases v@.len() - i,
    {
        if label_eq(v[i], l) {
            return true;
        }
        i = i + 1;
    }
    false
}

fn copy_states(v: &Vec<NFAState>) -> (r: Vec<NFAState>)
    ensures
        r@ == v@,
{
    let mut r: Vec<NFAState> = Vec::new();
    let mut i: usize = 0;
    while i < v.len()
        invariant
            i <= v@.len(),
            r@ == v@.take(i as int),
        decreases v@.len() - i,
    {
        r.push(v[i]);
        proof {
            assert(r@ =~= v@.take(i + 1));
        }
        i = i + 1;
    }
    proof {
        assert(r@ =~= v@);
    }
    r
}

proof fn lemma_to_set_concat<A>(a: Seq<A>, b: Seq<A>)
    ensures
        (a + b).to_set() == a.to_set().union(b.to_set()),
{
    assert forall|x: A| (a + b).to_set().contains(x) implies a.to_set().union(
        b.to_set(),
    ).contains(x) by {
        let j = choose|j: int| 0 <= j < (a + b).len() && (a + b)[j] == x;
        if j < a.len() {
            assert(a[j] == x);
        } else {
            assert(b[j - a.len()] == x);
        }
    }
    assert forall|x: A| a.to_set().union(b.to_set()).contains(x) implies (a + b).to_set().contains(
        x,
    ) by {
        if a.to_set().contains(x) {
            let j = choose|j: int| 0 <= j < a.len() && a[j] == x;
            assert((a + b)[j] == x);
        } else {
            let j = choose|j: int| 0 <= j < b.len() && b[j] == x;
            assert((a + b)[a.len() + j] == x);
        }
    }
    assert((a + b).to_set() =~= a.to_set().union(b.to_set()));
}

proof fn lemma_eps_take_step(sources: Seq<NFAState>, i: int, target: NFAState)
    requires
        0 <= i < sources.len(),
    ensures
        eps_edges_to(sources.take(i + 1).to_set(), target) == eps_edges_to(
            sources.take(i).to_set(),
            target,
        ).insert((sources[i], None::<char>, target)),
{
    lemma_to_set_push(sources.take(i + 1));
    assert(sources.take(i + 1).drop_last() =~= sources.take(i));
    assert(sources.take(i + 1).last() == sources[i]);
    assert(eps_edges_to(sources.take(i + 1).to_set(), target) =~= eps_edges_to(
        sources.take(i).to_set(),
        target,
    ).insert((sources[i], None::<char>, target)));
}

proof fn lemma_to_set_push<A>(s: Seq<A>)
    requires
        s.len() > 0,
    ensures
        s.to_set() == s.drop_last().to_set().insert(s.last()),
{
    assert forall|x: A| s.to_set().contains(x) implies s.drop_last().to_set().insert(
        s.last(),
    ).contains(x) by {
        let j = choose|j: int| 0 <= j < s.len() && s[j] == x;
        if j < s.len() - 1 {
            assert(s.drop_last()[j] == x);
            assert(s.drop_last().to_set().contains(x));
        }
    }
    assert forall|x: A| s.drop_last().to_set().insert(s.last()).contains(x) implies s
        .to_set().contains(x) by {
        if s.drop_last().to_set().contains(x) {
            let j = choose|j: int| 0 <= j < s.len() - 1 && s.drop_last()[j] == x;
            assert(s[j] == x);
        } else {
            assert(s[s.len() - 1] == x);
        }
    }
    assert(s.to_set() =~= s.drop_last().to_set().insert(s.last()));
}


/// `s` takes part in at least one transition of the fragment, as source or
/// as destination.
pub open spec fn participates(f: NfaShape, s: NFAState) -> bool {
    exists|e: NfaEdge| f.edges.contains(e) && (e.0 == s || e.2 == s)
}

/// Thompson fragments are tidy. The construction starting at `n` takes
/// exactly the identifiers `n .. n + node_states(node)`; its one start state
/// and all its accepting states lie in that range; and every state of the
/// range takes part in at least one transition — so in particular a state
/// that is not accepting exists only because a transition uses it. (That the
/// automaton has exactly one designated start state is the shape itself:
/// a fragment carries a single `start`.)
pub proof fn lemma_thompson_fragment(node: Node, n: int)
    requires
        0 <= n,
        n + node_states(node) <= u32::MAX,
    ensures
        ({
            let (f, n2) = spec_assemble(node, n);
            &&& n2 == n + node_states(node)
            &&& n <= f.start.0 < n2
            &&& forall|a: NFAState| f.accepts.contains(a) ==> n <= a.0 < n2
            &&& forall|k: int| n <= k < n2 ==> participates(f, st(k))
            &&& forall|k: int|
                n <= k < n2 && !f.accepts.contains(st(k)) ==> participates(f, st(k))
        }),
    decreases node,
{
    lemma_assemble_count(node, n);
    lemma_node_states_pos(node);
    let (f, n2) = spec_assemble(node, n);
    match node {
        Node::Character(c) => {
            let e = (st(n), Some(c), st(n + 1));
            assert(f.edges.contains(e));
            assert forall|k: int| n <= k < n2 implies participates(f, st(k)) by {
                assert(st(k) == e.0 || st(k) == e.2);
            }
        }
        Node::Empty => {
            let e = (st(n), None::<char>, st(n + 1));
            assert(f.edges.contains(e));
            assert forall|k: int| n <= k < n2 implies participates(f, st(k)) by {
                assert(st(k) == e.0 || st(k) == e.2);
            }
        }
        Node::Star(child) => {
            lemma_thompson_fragment(*child, n);
            lemma_assemble_count(*child, n);
            let (f1, n1) = spec_assemble(*child, n);
            let loop_edge = (st(n1), None::<char>, f1.start);
            assert(f.edges.contains(loop_edge));
            assert forall|k: int| n <= k < n2 implies participates(f, st(k)) by {
                if k < n1 {
                    assert(participates(f1, st(k)));
                    let e = choose|e: NfaEdge|
                        f1.edges.contains(e) && (e.0 == st(k) || e.2 == st(k));
                    assert(f.edges.contains(e));
                } else {
                    assert(st(k) == loop_edge.0);
                }
            }
        }
        Node::Union(a, b) => {
            lemma_node_states_pos(*a);
            lemma_node_states_pos(*b);
            lemma_thompson_fragment(*a, n);
            lemma_assemble_count(*a, n);
            let (f1, n1) = spec_assemble(*a, n);
            lemma_thompson_fragment(*b, n1);
            lemma_assemble_count(*b, n1);
            let (f2, nx) = spec_assemble(*b, n1);
            let e1 = (st(nx), None::<char>, f1.start);
            assert(f.edges.contains(e1));
            assert forall|k: int| n <= k < n2 implies participates(f, st(k)) by {
                if k < n1 {
                    let e = choose|e: NfaEdge|
                        f1.edges.contains(e) && (e.0 == st(k) || e.2 == st(k));
                    assert(f.edges.contains(e));
                } else if k < nx {
                    let e = choose|e: NfaEdge|
                        f2.edges.contains(e) && (e.0 == st(k) || e.2 == st(k));
                    assert(f.edges.contains(e));
                } else {
                    assert(st(k) == e1.0);
                }
            }
        }
        Node::Concat(a, b) => {
            lemma_node_states_pos(*a);
            lemma_node_states_pos(*b);
            lemma_thompson_fragment(*a, n);
            lemma_assemble_count(*a, n);
            let (f1, n1) = spec_assemble(*a, n);
            lemma_thompson_fragment(*b, n1);
            lemma_assemble_count(*b, n1);
            let (f2, nx) = spec_assemble(*b, n1);
            assert forall|k: int| n <= k < n2 implies participates(f, st(k)) by {
                if k < n1 {
                    let e = choose|e: NfaEdge|
                        f1.edges.contains(e) && (e.0 == st(k) || e.2 == st(k));
                    assert(f.edges.contains(e));
                } else {
                    let e = choose|e: NfaEdge|
                        f2.edges.contains(e) && (e.0 == st(k) || e.2 == st(k));
                    assert(f.edges.contains(e));
                }
            }
        }
    }
}

} // verus!
