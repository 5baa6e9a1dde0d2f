use vstd::prelude::*;

use crate::automaton::nfa::{NFAState, NfaEdge, NondeterministicFiniteAutomaton};

verus! {

broadcast use vstd::seq_lib::lemma_seq_contains_after_push;

/// One state of the deterministic automaton: the canonical identifier of a
/// distinct set of NFA states that are reachable together.
#[derive(Clone, Copy, Debug, Eq, Hash, PartialEq, PartialOrd, Ord, Structural)]
pub struct DFAState(pub usize);

/// `p` walks along the epsilon edges of `edges`: every step is an edge
/// labeled `None`.
pub open spec fn eps_path(edges: Set<NfaEdge>, p: Seq<NFAState>) -> bool {
    p.len() >= 1 && forall|k: int|
        0 <= k < p.len() - 1 ==> #[trigger] edges.contains((p[k], None::<char>, p[k + 1]))
}

/// `t` can be reached from some state of `from` along epsilon edges alone.
#[verifier::opaque]
pub open spec fn eps_reachable(edges: Set<NfaEdge>, from: Set<NFAState>, t: NFAState) -> bool {
    exists|p: Seq<NFAState>|
        eps_path(edges, p) && from.contains(p[0]) && p.last() == t
}

/// The epsilon-closure of a set of states: everything reachable from it
/// without reading any input.
pub open spec fn eps_closure(edges: Set<NfaEdge>, from: Set<NFAState>) -> Set<NFAState> {
    Set::new(|t: NFAState| eps_reachable(edges, from, t))
}

/// A member of a set is epsilon-reachable from it: the one-state walk.
pub proof fn lemma_eps_reach_member(edges: Set<NfaEdge>, from: Set<NFAState>, t: NFAState)
    requires
        from.contains(t),
    ensures
        eps_reachable(edges, from, t),
{
    reveal(eps_reachable);
    let p = seq![t];
    assert(eps_path(edges, p) && from.contains(p[0]) && p.last() == t);
}

/// One more epsilon edge keeps a state reachable.
pub proof fn lemma_eps_reach_step(
    edges: Set<NfaEdge>,
    from: Set<NFAState>,
    t: NFAState,
    u: NFAState,
)
    requires
        eps_reachable(edges, from, t),
        edges.contains((t, None::<char>, u)),
    ensures
        eps_reachable(edges, from, u),
{
    reveal(eps_reachable);
    let p = choose|p: Seq<NFAState>|
        eps_path(edges, p) && from.contains(p[0]) && p.last() == t;
    let q = p.push(u);
    assert forall|k: int|
        0 <= k < q.len() - 1 implies #[trigger] edges.contains((q[k], None::<char>, q[k + 1])) by {
        if k < p.len() - 1 {
            assert(q[k] == p[k] && q[k + 1] == p[k + 1]);
        } else {
            assert(q[k] == p.last() && q[k + 1] == u);
        }
    }
    assert(eps_path(edges, q) && from.contains(q[0]) && q.last() == u);
}

/// Two epsilon walks joined end to start make one epsilon walk.
proof fn lemma_eps_path_concat(edges: Set<NfaEdge>, q: Seq<NFAState>, p: Seq<NFAState>)
    requires
        eps_path(edges, q),
        eps_path(edges, p),
        q.last() == p[0],
    ensures
        eps_path(edges, q + p.skip(1)),
        (q + p.skip(1))[0] == q[0],
        (q + p.skip(1)).last() == p.last(),
{
    let r = q + p.skip(1);
    assert forall|k: int|
        0 <= k < r.len() - 1 implies #[trigger] edges.contains((r[k], None::<char>, r[k + 1])) by {
        if k < q.len() - 1 {
            assert(r[k] == q[k] && r[k + 1] == q[k + 1]);
        } else if k == q.len() - 1 {
            assert(r[k] == q.last() && r[k + 1] == p.skip(1)[0]);
            assert(p.skip(1)[0] == p[1]);
            assert(edges.contains((p[0], None::<char>, p[1])));
        } else {
            assert(r[k] == p.skip(1)[k - q.len()]);
            assert(r[k] == p[k - q.len() + 1] && r[k + 1] == p[k - q.len() + 2]);
        }
    }
    if p.len() == 1 {
        assert(r =~= q);
    } else {
        assert(r.last() == p.skip(1).last());
        assert(p.skip(1).last() == p.last());
    }
}

/// Reachability is transitive: what is reachable from states that are all
/// reachable from `a` is itself reachable from `a`.
pub proof fn lemma_eps_reach_trans(
    edges: Set<NfaEdge>,
    a: Set<NFAState>,
    b: Set<NFAState>,
    t: NFAState,
)
    requires
        forall|x: NFAState| b.contains(x) ==> eps_reachable(edges, a, x),
        eps_reachable(edges, b, t),
    ensures
        eps_reachable(edges, a, t),
{
    reveal(eps_reachable);
    let p = choose|p: Seq<NFAState>|
        eps_path(edges, p) && b.contains(p[0]) && p.last() == t;
    assert(eps_reachable(edges, a, p[0]));
    let q = choose|q: Seq<NFAState>|
        eps_path(edges, q) && a.contains(q[0]) && q.last() == p[0];
    lemma_eps_path_concat(edges, q, p);
    let r = q + p.skip(1);
    assert(eps_path(edges, r) && a.contains(r[0]) && r.last() == t);
}

/// Epsilon-closure is idempotent: closing an already-closed set yields the
/// same set.
pub proof fn lemma_eps_closure_idempotent(edges: Set<NfaEdge>, s: Set<NFAState>)
    ensures
        eps_closure(edges, eps_closure(edges, s)) == eps_closure(edges, s),
{
    let c = eps_closure(edges, s);
    assert forall|t: NFAState| c.contains(t) implies eps_closure(edges, c).contains(t) by {
        lemma_eps_reach_member(edges, c, t);
    }
    assert forall|t: NFAState| eps_closure(edges, c).contains(t) implies c.contains(t) by {
        lemma_eps_reach_trans(edges, s, c, t);
    }
    assert(eps_closure(edges, eps_closure(edges, s)) =~= eps_closure(edges, s));
}

/// A walk that starts inside a set closed under epsilon edges ends inside it.
proof fn lemma_path_stays(edges: Set<NfaEdge>, r: Seq<NFAState>, p: Seq<NFAState>)
    requires
        forall|s: NFAState, u: NFAState|
            r.contains(s) && #[trigger] edges.contains((s, None::<char>, u)) ==> r.contains(u),
        eps_path(edges, p),
        r.contains(p[0]),
    ensures
        r.contains(p.last()),
    decreases p.len(),
{
    if p.len() > 1 {
        let q = p.drop_last();
        assert forall|k: int|
            0 <= k < q.len() - 1 implies #[trigger] edges.contains(
            (q[k], None::<char>, q[k + 1]),
        ) by {
            assert(edges.contains((p[k], None::<char>, p[k + 1])));
        }
        assert(eps_path(edges, q));
        lemma_path_stays(edges, r, q);
        let k = p.len() - 2;
        assert(edges.contains((p[k], None::<char>, p[k + 1])));
        assert(q.last() == p[k]);
        assert(p[k + 1] == p.last());
    }
}

/// No sequence of distinct states is longer than the space of identifiers.
proof fn lemma_distinct_states_bound(s: Seq<NFAState>)
    requires
        s.no_duplicates(),
    ensures
        s.len() <= 0x1_0000_0000,
{
    let f = |x: NFAState| x.0 as int;
    let ints = s.map_values(f);
    assert(forall|x: NFAState, y: NFAState| #[trigger] f(x) == #[trigger] f(y) ==> x == y);
    s.lemma_no_duplicates_injective(f);
    ints.unique_seq_to_set();
    let range = vstd::set_lib::set_int_range(0, 0x1_0000_0000);
    assert forall|x: int| ints.to_set().contains(x) implies range.contains(x) by {
        let j = choose|j: int| 0 <= j < ints.len() && ints[j] == x;
        assert(ints[j] == f(s[j]));
    }
    vstd::set_lib::lemma_int_range(0, 0x1_0000_0000);
    vstd::set_lib::lemma_len_subset(ints.to_set(), range);
}

fn contains_state(v: &Vec<NFAState>, s: NFAState) -> (r: bool)
    ensures
        r == v@.contains(s),
{
    let mut i: usize = 0;
    while i < v.len()
        invariant
            i <= v@.len(),
            forall|j: int| 0 <= j < i ==> v@[j] != s,
        decreases v@.len() - i,
    {
        if v[i] == s {
            return true;
        }
        i = i + 1;
    }
    false
}

/// Follows epsilon edges from `init` until no new state turns up. The states
/// returned are exactly those epsilon-reachable from `init`, each once.
pub fn epsilon_closure(nfa: &NondeterministicFiniteAutomaton, init: &Vec<NFAState>) -> (r: Vec<
    NFAState,
>)
    ensures
        forall|t: NFAState| r@.contains(t) <==> eps_closure(nfa.edge_set(), init@.to_set()).contains(t),
        r@.no_duplicates(),
{
    let mut r: Vec<NFAState> = Vec::new();
    let mut i: usize = 0;
    while i < init.len()
        invariant
            i <= init@.len(),
            r@.no_duplicates(),
            forall|t: NFAState| r@.contains(t) <==> init@.take(i as int).contains(t),
        decreases init@.len() - i,
    {
        let s = init[i];
        if !contains_state(&r, s) {
            r.push(s);
        }
        proof {
            assert(init@.take(i + 1).drop_last() =~= init@.take(i as int));
            assert forall|t: NFAState|
                r@.contains(t) <==> init@.take(i + 1).contains(t) by {
                if init@.take(i + 1).contains(t) {
                    let j = choose|j: int| 0 <= j < i + 1 && #[trigger] init@.take(i + 1)[j] == t;
                    if j < i {
                        assert(init@.take(i as int)[j] == t);
                    } else {
                        assert(t == s);
                    }
                }
                if r@.contains(t) && t != s {
                    assert(init@.take(i as int).contains(t));
                    let j = choose|j: int| 0 <= j < i && #[trigger] init@.take(i as int)[j] == t;
                    assert(init@.take(i + 1)[j] == t);
                }
                if t == s && r@.contains(t) {
                    assert(init@.take(i + 1)[i as int] == s);
                }
            }
        }
        i = i + 1;
    }
    proof {
        assert(init@.take(init@.len() as int) =~= init@);
        assert forall|t: NFAState| r@.contains(t) implies eps_reachable(
            nfa.edge_set(),
            init@.to_set(),
            t,
        ) by {
            lemma_eps_reach_member(nfa.edge_set(), init@.to_set(), t);
        }
    }
    let mut k: usize = 0;
    while k < r.len()
        invariant
            k <= r@.len(),
            r@.no_duplicates(),
            forall|t: NFAState| init@.contains(t) ==> r@.contains(t),
            forall|t: NFAState| r@.contains(t) ==> eps_reachable(nfa.edge_set(), init@.to_set(), t),
            forall|j: int, u: NFAState|
                0 <= j < k && #[trigger] nfa.has_edge(r@[j], None::<char>, u) ==> r@.contains(u),
        decreases 0x1_0000_0001 - r@.len(), r@.len() - k,
    {
        let s = r[k];
        let succs = nfa.next_states(s, None);
        let ghost r_before = r@;
        let mut j: usize = 0;
        while j < succs.len()
            invariant
                j <= succs@.len(),
                k < r@.len(),
                r@[k as int] == s,
                r_before.len() <= r@.len(),
                forall|t: NFAState| r_before.contains(t) ==> r@.contains(t),
                forall|m: int| 0 <= m < r_before.len() ==> r@[m] == r_before[m],
                forall|to: NFAState| succs@.contains(to) <==> nfa.has_edge(s, None::<char>, to),
                r@.no_duplicates(),
                forall|t: NFAState| init@.contains(t) ==> r@.contains(t),
                forall|t: NFAState| r@.contains(t) ==> eps_reachable(nfa.edge_set(), init@.to_set(), t),
                forall|m: int, u: NFAState|
                    0 <= m < k && #[trigger] nfa.has_edge(r@[m], None::<char>, u) ==> r@.contains(
                        u,
                    ),
                forall|jj: int| 0 <= jj < j ==> r@.contains(#[trigger] succs@[jj]),
            decreases succs@.len() - j,
        {
            let u = succs[j];
            if !contains_state(&r, u) {
                proof {
                    assert(succs@[j as int] == u);
                    assert(succs@.contains(u));
                    assert(nfa.has_edge(s, None::<char>, u));
                    assert(r@.contains(s));
                    lemma_eps_reach_step(nfa.edge_set(), init@.to_set(), s, u);
                }
                r.push(u);
            }
            j = j + 1;
        }
        proof {
            assert forall|u: NFAState|
                nfa.has_edge(#[trigger] r@[k as int], None::<char>, u) implies r@.contains(u) by {
                assert(succs@.contains(u));
                let jj = choose|jj: int| 0 <= jj < succs@.len() && succs@[jj] == u;
            }
            lemma_distinct_states_bound(r@);
        }
        k = k + 1;
    }
    proof {
        reveal(eps_reachable);
        assert forall|t: NFAState|
            eps_closure(nfa.edge_set(), init@.to_set()).contains(t) implies r@.contains(t) by {
            assert forall|sx: NFAState, u: NFAState|
                r@.contains(sx) && #[trigger] nfa.edge_set().contains(
                    (sx, None::<char>, u),
                ) implies r@.contains(u) by {
                let m = choose|m: int| 0 <= m < r@.len() && r@[m] == sx;
                assert(nfa.has_edge(r@[m], None::<char>, u));
            }
            let p = choose|p: Seq<NFAState>|
                eps_path(nfa.edge_set(), p) && init@.to_set().contains(p[0]) && p.last() == t;
            assert(r@.contains(p[0]));
            lemma_path_stays(nfa.edge_set(), r@, p);
        }
    }
    r
}

/// A canonical list of states: sorted by identifier, strictly, so without
/// duplicates.
pub open spec fn strictly_sorted(s: Seq<NFAState>) -> bool {
    forall|i: int, j: int| 0 <= i < j < s.len() ==> s[i].0 < s[j].0
}

/// A set of states has exactly one canonical list: two strictly sorted
/// sequences with the same element set are the same sequence.
pub proof fn lemma_canon_unique(a: Seq<NFAState>, b: Seq<NFAState>)
    requires
        strictly_sorted(a),
        strictly_sorted(b),
        a.to_set() == b.to_set(),
    ensures
        a == b,
    decreases a.len(),
{
    if a.len() == 0 {
        if b.len() > 0 {
            assert(b.to_set().contains(b[0]));
            assert(a.contains(b[0]));
        }
        assert(a =~= b);
    } else if b.len() == 0 {
        assert(a.to_set().contains(a[0]));
        assert(b.contains(a[0]));
    } else {
        assert(a.to_set().contains(a[0]));
        assert(b.contains(a[0]));
        let jb = choose|j: int| 0 <= j < b.len() && b[j] == a[0];
        assert(b.to_set().contains(b[0]));
        assert(a.contains(b[0]));
        let ja = choose|j: int| 0 <= j < a.len() && a[j] == b[0];
        if jb > 0 {
            assert(b[0].0 < b[jb].0);
            assert(ja == 0 ==> a[0] == b[0]);
            assert(ja > 0 ==> a[0].0 < a[ja].0);
        }
        assert(a[0] == b[0]);
        let a1 = a.skip(1);
        let b1 = b.skip(1);
        assert forall|x: NFAState| a1.to_set().contains(x) implies b1.to_set().contains(x) by {
            let i = choose|i: int| 0 <= i < a1.len() && a1[i] == x;
            assert(a[i + 1] == x);
            assert(a[0].0 < a[i + 1].0);
            assert(a.to_set().contains(x));
            assert(b.contains(x));
            let j = choose|j: int| 0 <= j < b.len() && b[j] == x;
            assert(j != 0);
            assert(b1[j - 1] == x);
        }
        assert forall|x: NFAState| b1.to_set().contains(x) implies a1.to_set().contains(x) by {
            let i = choose|i: int| 0 <= i < b1.len() && b1[i] == x;
            assert(b[i + 1] == x);
            assert(b[0].0 < b[i + 1].0);
            assert(b.to_set().contains(x));
            assert(a.contains(x));
            let j = choose|j: int| 0 <= j < a.len() && a[j] == x;
            assert(j != 0);
            assert(a1[j - 1] == x);
        }
        assert(a1.to_set() =~= b1.to_set());
        assert(strictly_sorted(a1));
        assert(strictly_sorted(b1));
        lemma_canon_unique(a1, b1);
        assert forall|i: int| 0 <= i < a.len() implies a[i] == b[i] by {
            if i > 0 {
                assert(a1[i - 1] == b1[i - 1]);
            }
        }
        assert(a =~= b);
    }
}

/// Sorts a list of states and drops duplicates: the canonical list of its
/// element set.
fn sort_dedup(states: &Vec<NFAState>) -> (r: Vec<NFAState>)
    ensures
        strictly_sorted(r@),
        r@.to_set() == states@.to_set(),
{
    let mut r: Vec<NFAState> = Vec::new();
    let mut i: usize = 0;
    while i < states.len()
        invariant
            i <= states@.len(),
            strictly_sorted(r@),
            r@.to_set() == states@.take(i as int).to_set(),
        decreases states@.len() - i,
    {
        let s = states[i];
        let mut p: usize = 0;
        while p < r.len() && r[p].0 < s.0
            invariant
                p <= r@.len(),
                forall|q: int| 0 <= q < p ==> r@[q].0 < s.0,
            decreases r@.len() - p,
        {
            p = p + 1;
        }
        let ghost prev = r@;
        if p < r.len() && r[p].0 == s.0 {
            proof {
                assert(r@[p as int] == s);
                assert(r@.contains(s));
            }
        } else {
            proof {
                prev.insert_ensures(p as int, s);
            }
            r.insert(p, s);
            proof {
                assert forall|x: int, y: int| 0 <= x < y < r@.len() implies r@[x].0 < r@[y].0 by {
                    if y < p {
                        assert(r@[x] == prev[x] && r@[y] == prev[y]);
                    } else if y == p {
                        assert(x < p && r@[x] == prev[x] && r@[y] == s);
                    } else if x < p {
                        assert(r@[x] == prev[x] && r@[y] == prev[y - 1]);
                        if y - 1 == p {
                            assert(r@[y] == prev[p as int]);
                            assert(s.0 <= prev[p as int].0);
                        }
                    } else if x == p {
                        assert(r@[x] == s && r@[y] == prev[y - 1]);
                        assert(p < prev.len());
                        assert(s.0 < prev[p as int].0);
                        assert(p <= y - 1 < prev.len());
                    } else {
                        assert(r@[x] == prev[x - 1] && r@[y] == prev[y - 1]);
                    }
                }
                assert forall|x: NFAState| r@.to_set().contains(x) implies prev.to_set().insert(
                    s,
                ).contains(x) by {
                    let j = choose|j: int| 0 <= j < r@.len() && r@[j] == x;
                    if j < p {
                        assert(prev[j] == x);
                    } else if j > p {
                        assert(prev[j - 1] == x);
                    }
                }
                assert forall|x: NFAState| prev.to_set().insert(s).contains(x) implies r@.to_set()
                    .contains(x) by {
                    if prev.to_set().contains(x) {
                        let j = choose|j: int| 0 <= j < prev.len() && prev[j] == x;
                        if j < p {
                            assert(r@[j] == x);
                        } else {
                            assert(r@[j + 1] == x);
                        }
                    } else {
                        assert(r@[p as int] == s);
                    }
                }
                assert(r@.to_set() =~= prev.to_set().insert(s));
            }
        }
        proof {
            assert(states@.take(i + 1).drop_last() =~= states@.take(i as int));
            lemma_to_set_push_local(states@.take(i + 1));
            assert(r@.to_set() =~= states@.take(i + 1).to_set());
        }
        i = i + 1;
    }
    proof {
        assert(states@.take(states@.len() as int) =~= states@);
    }
    r
}

proof fn lemma_to_set_push_local(s: Seq<NFAState>)
    requires
        s.len() > 0,
    ensures
        s.to_set() == s.drop_last().to_set().insert(s.last()),
{
    assert forall|x: NFAState| s.to_set().contains(x) implies s.drop_last().to_set().insert(
        s.last(),
    ).contains(x) by {
        let j = choose|j: int| 0 <= j < s.len() && s[j] == x;
        if j < s.len() - 1 {
            assert(s.drop_last()[j] == x);
        }
    }
    assert forall|x: NFAState| s.drop_last().to_set().insert(s.last()).contains(x) implies s
        .to_set().contains(x) by {
        if s.drop_last().to_set().contains(x) {
            let j = choose|j: int| 0 <= j < s.len() - 1 && s.drop_last()[j] == x;
            assert(s[j] == x);
        } else {
            assert(s[s.len() - 1] == x);
        }
    }
    assert(s.to_set() =~= s.drop_last().to_set().insert(s.last()));
}

fn vec_states_eq(a: &Vec<NFAState>, b: &Vec<NFAState>) -> (r: bool)
    ensures
        r == (a@ == b@),
{
    if a.len() != b.len() {
        proof {
            assert(a@ != b@);
        }
        return false;
    }
    let mut i: usize = 0;
    while i < a.len()
        invariant
            a@.len() == b@.len(),
            i <= a@.len(),
            forall|j: int| 0 <= j < i ==> a@[j] == b@[j],
        decreases a@.len() - i,
    {
        if a[i].0 != b[i].0 {
            proof {
                assert(a@[i as int] != b@[i as int]);
            }
            return false;
        }
        i = i + 1;
    }
    proof {
        assert(a@ =~= b@);
    }
    true
}

/// The state-identity map: gives each distinct set of NFA states one
/// canonical DFA state identifier, assigned sequentially at first discovery.
pub struct Context {
    state_count: usize,
    state_map: Vec<(Vec<NFAState>, DFAState)>,
}

impl Context {
    /// The entries in discovery order, each a canonical list of NFA states
    /// with its identifier.
    pub closed spec fn entries(self) -> Seq<(Seq<NFAState>, DFAState)> {
        self.state_map@.map_values(|e: (Vec<NFAState>, DFAState)| (e.0@, e.1))
    }

    pub closed spec fn count(self) -> int {
        self.state_count as int
    }

    pub open spec fn wf(self) -> bool {
        &&& self.count() == self.entries().len()
        &&& forall|i: int|
            0 <= i < self.entries().len() ==> (#[trigger] self.entries()[i]).1 == DFAState(
                i as usize,
            )
        &&& forall|i: int|
            0 <= i < self.entries().len() ==> strictly_sorted((#[trigger] self.entries()[i]).0)
        &&& forall|i: int, j: int|
            0 <= i < j < self.entries().len() ==> (#[trigger] self.entries()[i]).0.to_set() != (
            #[trigger] self.entries()[j]).0.to_set()
    }

    /// Is this set of states already known?
    pub open spec fn has_set(self, q: Set<NFAState>) -> bool {
        exists|i: int|
            0 <= i < self.entries().len() && (#[trigger] self.entries()[i]).0.to_set() == q
    }

    /// The identifier a known set of states maps to.
    pub open spec fn id_of_set(self, q: Set<NFAState>) -> DFAState {
        let i = choose|i: int|
            0 <= i < self.entries().len() && (#[trigger] self.entries()[i]).0.to_set() == q;
        self.entries()[i].1
    }

    pub fn new() -> (r: Context)
        ensures
            r.wf(),
            r.entries() == Seq::<(Seq<NFAState>, DFAState)>::empty(),
            r.count() == 0,
    {
        let r = Context { state_count: 0, state_map: Vec::new() };
        proof {
            assert(r.entries() =~= Seq::<(Seq<NFAState>, DFAState)>::empty());
        }
        r
    }

    /// Canonicalizes the given list (sorting, dropping duplicates) and
    /// returns the identifier of its set: the one it already carries, or the
    /// next sequential identifier at first discovery. Order and duplicates in
    /// the input make no difference.
    pub fn get_state(&mut self, states: &Vec<NFAState>) -> (r: DFAState)
        requires
            old(self).wf(),
        ensures
            final(self).wf(),
            final(self).has_set(states@.to_set()),
            r == final(self).id_of_set(states@.to_set()),
            r.0 < final(self).count(),
            old(self).has_set(states@.to_set()) ==> *final(self) == *old(self) && r == old(
                self,
            ).id_of_set(states@.to_set()),
            !old(self).has_set(states@.to_set()) ==> {
                &&& final(self).entries().len() == old(self).entries().len() + 1
                &&& final(self).entries().take(old(self).entries().len() as int) == old(
                    self,
                ).entries()
                &&& final(self).entries().last().0.to_set() == states@.to_set()
                &&& r == DFAState(old(self).count() as usize)
            },
    {
        let ghost q = states@.to_set();
        let sorted = sort_dedup(states);
        let mut i: usize = 0;
        while i < self.state_map.len()
            invariant
                i <= self.entries().len(),
                strictly_sorted(sorted@),
                sorted@.to_set() == q,
                q == states@.to_set(),
                old(self).wf(),
                *self == *old(self),
                forall|j: int| 0 <= j < i ==> (#[trigger] self.entries()[j]).0 != sorted@,
            decreases self.entries().len() - i,
        {
            let found = vec_states_eq(&self.state_map[i].0, &sorted);
            if found {
                let id = self.state_map[i].1;
                proof {
                    assert(self.wf());
                    assert(self.entries()[i as int].0 == sorted@);
                    assert(self.entries()[i as int].0.to_set() == q);
                    assert(self.has_set(q));
                    let w = choose|w: int|
                        0 <= w < self.entries().len() && (#[trigger] self.entries()[w]).0.to_set()
                            == q;
                    assert(0 <= w < self.entries().len() && self.entries()[w].0.to_set() == q);
                    if w < i as int {
                        assert(self.entries()[w].0.to_set() != self.entries()[
                            i as int
                        ].0.to_set());
                    } else if w > i as int {
                        assert(self.entries()[i as int].0.to_set() != self.entries()[
                            w
                        ].0.to_set());
                    }
                    assert(w == i as int);
                    assert(id == self.id_of_set(q));
                    assert(id.0 < self.count());
                }
                return id;
            }
            i = i + 1;
        }
        proof {
            assert forall|j: int|
                0 <= j < self.entries().len() implies (#[trigger] self.entries()[j]).0.to_set()
                != q by {
                if self.entries()[j].0.to_set() == q {
                    lemma_canon_unique(self.entries()[j].0, sorted@);
                }
            }
            assert(!self.has_set(q));
        }
        let id = self.state_count;
        let ghost before = self.entries();
        self.state_map.push((sorted, DFAState(id)));
        self.state_count = self.state_map.len();
        proof {
            assert(self.entries() =~= before.push((sorted@, DFAState(id))));
            assert(self.entries().take(before.len() as int) =~= before);
            assert(self.entries().last().0.to_set() == q);
            assert forall|j: int|
                0 <= j < self.entries().len() implies (#[trigger] self.entries()[j]).1 == DFAState(
                j as usize,
            ) by {
                if j < before.len() {
                    assert(self.entries()[j] == before[j]);
                }
            }
            assert(self.wf());
            assert(self.has_set(q));
            let w = choose|w: int|
                0 <= w < self.entries().len() && (#[trigger] self.entries()[w]).0.to_set() == q;
            assert(w == before.len());
            assert(DFAState(id) == self.id_of_set(q));
        }
        DFAState(id)
    }
}

/// The canonicalization invariant of the state-identity map: two entries
/// carry the same set exactly when they are the same entry (the map is a
/// function of the set, and injective), and the identifier of entry `i` is
/// `i` itself: identifiers grow in order of first discovery.
pub proof fn lemma_canonical_identity(ctx: Context, i: int, j: int)
    requires
        ctx.wf(),
        0 <= i < ctx.entries().len(),
        0 <= j < ctx.entries().len(),
    ensures
        ctx.entries()[i].0.to_set() == ctx.entries()[j].0.to_set() <==> i == j,
        ctx.entries()[i].1 == DFAState(i as usize),
{
}


fn contains_dfastate(v: &Vec<DFAState>, s: DFAState) -> (r: bool)
    ensures
        r == v@.contains(s),
{
    let mut i: usize = 0;
    while i < v.len()
        invariant
            i <= v@.len(),
            forall|j: int| 0 <= j < i ==> v@[j] != s,
        decreases v@.len() - i,
    {
        if v[i] == s {
            return true;
        }
        i = i + 1;
    }
    false
}

fn contains_char(v: &Vec<char>, c: char) -> (r: bool)
    ensures
        r == v@.contains(c),
{
    let mut i: usize = 0;
    while i < v.len()
        invariant
            i <= v@.len(),
            forall|j: int| 0 <= j < i ==> v@[j] != c,
        decreases v@.len() - i,
    {
        if v[i] == c {
            return true;
        }
        i = i + 1;
    }
    false
}

/// No sequence of distinct identifiers below `bound` is longer than `bound`.
proof fn lemma_distinct_ids_bound(s: Seq<DFAState>, bound: int)
    requires
        s.no_duplicates(),
        0 <= bound,
        forall|j: int| 0 <= j < s.len() ==> (#[trigger] s[j]).0 < bound,
    ensures
        s.len() <= bound,
{
    let f = |x: DFAState| x.0 as int;
    let ints = s.map_values(f);
    assert(forall|x: DFAState, y: DFAState| #[trigger] f(x) == #[trigger] f(y) ==> x == y);
    s.lemma_no_duplicates_injective(f);
    ints.unique_seq_to_set();
    let range = vstd::set_lib::set_int_range(0, bound);
    assert forall|x: int| ints.to_set().contains(x) implies range.contains(x) by {
        let j = choose|j: int| 0 <= j < ints.len() && ints[j] == x;
        assert(ints[j] == f(s[j]));
        assert(s[j].0 < bound);
    }
    vstd::set_lib::lemma_int_range(0, bound);
    vstd::set_lib::lemma_len_subset(ints.to_set(), range);
}

/// One entry of the deterministic transition table: state, symbol, next
/// state.
pub type DfaEdge = (DFAState, char, DFAState);

/// Never two table entries for one (state, symbol) pair.
pub open spec fn det_table(t: Seq<DfaEdge>) -> bool {
    forall|i: int, j: int|
        0 <= i < j < t.len() ==> !((#[trigger] t[i]).0 == (#[trigger] t[j]).0 && t[i].1
            == t[j].1)
}

/// A deterministic automaton: a start state, accepting states, and at most
/// one transition per (state, symbol) pair. An absent pair means "no
/// transition" and the matcher rejects there.
#[derive(Debug)]
pub struct DeterministicFiniteAutomaton {
    pub start: DFAState,
    pub accepts: Vec<DFAState>,
    pub transitions: Vec<DfaEdge>,
}

impl DeterministicFiniteAutomaton {
    pub open spec fn has_transition(self, from: DFAState, symbol: char, to: DFAState) -> bool {
        self.transitions@.contains((from, symbol, to))
    }

    pub open spec fn accept_set(self) -> Set<DFAState> {
        self.accepts@.to_set()
    }

    /// Determinism: for every state and symbol, at most one transition.
    pub open spec fn deterministic(self) -> bool {
        det_table(self.transitions@)
    }

    /// What the automaton does on `symbol` in `state`: the unique next
    /// state, or `None` where the table has no entry.
    pub open spec fn spec_next(self, state: DFAState, symbol: char) -> Option<DFAState> {
        if exists|t: DFAState| self.has_transition(state, symbol, t) {
            Some(choose|t: DFAState| self.has_transition(state, symbol, t))
        } else {
            None
        }
    }

    /// Is this state one of the accepting states?
    pub fn is_accepting(&self, state: DFAState) -> (r: bool)
        ensures
            r == self.accept_set().contains(state),
    {
        let mut i: usize = 0;
        while i < self.accepts.len()
            invariant
                i <= self.accepts@.len(),
                forall|j: int| 0 <= j < i ==> self.accepts@[j] != state,
            decreases self.accepts@.len() - i,
        {
            if self.accepts[i] == state {
                proof {
                    assert(self.accepts@.contains(state));
                }
                return true;
            }
            i = i + 1;
        }
        proof {
            if self.accept_set().contains(state) {
                let j = choose|j: int|
                    0 <= j < self.accepts@.len() && self.accepts@[j] == state;
            }
        }
        false
    }

    /// The one-step lookup the matcher runs on.
    pub fn next_state(&self, state: DFAState, symbol: char) -> (r: Option<DFAState>)
        requires
            self.deterministic(),
        ensures
            r == self.spec_next(state, symbol),
            match r {
                Some(t) => self.has_transition(state, symbol, t),
                None => forall|t: DFAState| !self.has_transition(state, symbol, t),
            },
    {
        let mut i: usize = 0;
        while i < self.transitions.len()
            invariant
                self.deterministic(),
                i <= self.transitions@.len(),
                forall|j: int|
                    0 <= j < i ==> !((#[trigger] self.transitions@[j]).0 == state
                        && self.transitions@[j].1 == symbol),
            decreases self.transitions@.len() - i,
        {
            let e = self.transitions[i];
            if e.0 == state && e.1 == symbol {
                proof {
                    assert(self.transitions@[i as int] == (state, symbol, e.2));
                    assert(self.has_transition(state, symbol, e.2));
                    let t0 = choose|t: DFAState| self.has_transition(state, symbol, t);
                    lemma_deterministic_unique(*self, state, symbol, e.2, t0);
                }
                return Some(e.2);
            }
            i = i + 1;
        }
        proof {
            assert forall|t: DFAState| !self.has_transition(state, symbol, t) by {
                if self.has_transition(state, symbol, t) {
                    let j = choose|j: int|
                        0 <= j < self.transitions@.len() && self.transitions@[j] == (
                            state,
                            symbol,
                            t,
                        );
                    assert((#[trigger] self.transitions@[j]).0 == state);
                }
            }
        }
        None
    }
}

/// Determinism: for every DFA state and symbol at most one destination
/// exists, never a set of them.
pub proof fn lemma_deterministic_unique(
    dfa: DeterministicFiniteAutomaton,
    state: DFAState,
    symbol: char,
    t1: DFAState,
    t2: DFAState,
)
    requires
        dfa.deterministic(),
        dfa.has_transition(state, symbol, t1),
        dfa.has_transition(state, symbol, t2),
    ensures
        t1 == t2,
{
    let i = choose|i: int|
        0 <= i < dfa.transitions@.len() && dfa.transitions@[i] == (state, symbol, t1);
    let j = choose|j: int|
        0 <= j < dfa.transitions@.len() && dfa.transitions@[j] == (state, symbol, t2);
    if i < j {
        assert(!((dfa.transitions@[i]).0 == (dfa.transitions@[j]).0 && dfa.transitions@[i].1
            == dfa.transitions@[j].1));
    } else if j < i {
        assert(!((dfa.transitions@[j]).0 == (dfa.transitions@[i]).0 && dfa.transitions@[j].1
            == dfa.transitions@[i].1));
    }
}

/// Every state one `symbol` edge away from a member of `q`.
pub open spec fn step_set(edges: Set<NfaEdge>, q: Set<NFAState>, symbol: char) -> Set<NFAState> {
    Set::new(
        |t: NFAState|
            exists|s: NFAState| q.contains(s) && #[trigger] edges.contains((s, Some(symbol), t)),
    )
}

/// Does `q` hold at least one accepting state?
pub open spec fn holds_accepting(q: Set<NFAState>, accepting: Set<NFAState>) -> bool {
    exists|s: NFAState| q.contains(s) && #[trigger] accepting.contains(s)
}

/// Some member of `q` has a `c` edge: reading `c` there leads somewhere.
pub open spec fn steps_somewhere(edges: Set<NfaEdge>, q: Set<NFAState>, c: char) -> bool {
    exists|t: NFAState| #[trigger] step_set(edges, q, c).contains(t)
}

/// The sets the state-identity map has discovered, in discovery order:
/// entry `i` is what the DFA state with identifier `i` stands for.
pub open spec fn ctx_sets(ctx: Context) -> Seq<Set<NFAState>> {
    ctx.entries().map_values(|e: (Seq<NFAState>, DFAState)| e.0.to_set())
}

/// `m` lists, in discovery order, the set of NFA states each DFA state
/// stands for, and witnesses that `dfa` is the subset construction of the
/// automaton shape `f`:
/// - the DFA starts at the first discovered state, which stands for the
///   epsilon-closure of the NFA's start state;
/// - distinct DFA states stand for distinct, epsilon-closed sets;
/// - every table entry leads from a discovered set `Q` on its symbol `c` to
///   exactly the epsilon-closure of the states one `c` edge away from `Q`,
///   and only where that step leads somewhere;
/// - every discovered set has a table entry for every symbol on which some
///   member steps somewhere, so a pair is absent only where the step set is
///   empty — the "stuck" case the matcher reads as rejection;
/// - a DFA state is accepting exactly when its set holds an accepting NFA
///   state.
pub open spec fn subset_construction(
    f: crate::automaton::nfa::NfaShape,
    dfa: DeterministicFiniteAutomaton,
    m: Seq<Set<NFAState>>,
) -> bool {
    &&& m.len() >= 1
    &&& dfa.start == DFAState(0)
    &&& m[0] == eps_closure(f.edges, set![f.start])
    &&& forall|i: int, j: int| 0 <= i < j < m.len() ==> m[i] != m[j]
    &&& forall|i: int|
        0 <= i < m.len() ==> eps_closure(f.edges, #[trigger] m[i]) == m[i]
    &&& forall|i: int|
        0 <= i < m.len() ==> (dfa.accept_set().contains(DFAState(i as usize)) <==> holds_accepting(
            #[trigger] m[i],
            f.accepts,
        ))
    &&& forall|d: DFAState| #[trigger] dfa.accept_set().contains(d) ==> d.0 < m.len()
    &&& forall|e: DfaEdge|
        #[trigger] dfa.transitions@.contains(e) ==> e.0.0 < m.len() && e.2.0 < m.len()
            && m[e.2.0 as int] == eps_closure(f.edges, step_set(f.edges, m[e.0.0 as int], e.1))
            && steps_somewhere(f.edges, m[e.0.0 as int], e.1)
    &&& forall|i: int, c: char|
        0 <= i < m.len() && #[trigger] steps_somewhere(f.edges, m[i], c) ==> exists|t: DFAState|
            #[trigger] dfa.has_transition(DFAState(i as usize), c, t)
}

/// Every discovered identifier is either already visited or still waiting:
/// some work-list entry stands for its set.
spec fn covered(ctx: Context, waiting: Seq<Vec<NFAState>>, visited: Seq<DFAState>, i: int) -> bool {
    visited.contains(DFAState(i as usize)) || exists|k: int|
        0 <= k < waiting.len() && (#[trigger] waiting[k])@.to_set() == ctx_sets(ctx)[i]
}

/// The identifier a known set maps to names the entry that carries that set.
proof fn lemma_get_state_set(ctx: Context, q: Set<NFAState>, r: DFAState)
    requires
        ctx.wf(),
        ctx.has_set(q),
        r == ctx.id_of_set(q),
    ensures
        r.0 < ctx.entries().len(),
        ctx_sets(ctx)[r.0 as int] == q,
{
    let w = choose|w: int|
        0 <= w < ctx.entries().len() && (#[trigger] ctx.entries()[w]).0.to_set() == q;
    assert(ctx.entries()[w].1 == DFAState(w as usize));
    assert(ctx_sets(ctx)[w] == ctx.entries()[w].0.to_set());
}

/// Growing the map by one entry leaves what every earlier identifier stands
/// for unchanged.
proof fn lemma_ctx_grow(c0: Context, c1: Context)
    requires
        c1.entries().len() == c0.entries().len() + 1,
        c1.entries().take(c0.entries().len() as int) == c0.entries(),
    ensures
        ctx_sets(c1).len() == ctx_sets(c0).len() + 1,
        forall|i: int|
            0 <= i < c0.entries().len() ==> #[trigger] ctx_sets(c1)[i] == ctx_sets(c0)[i],
{
    assert forall|i: int|
        0 <= i < c0.entries().len() implies #[trigger] ctx_sets(c1)[i] == ctx_sets(c0)[i] by {
        assert(c1.entries().take(c0.entries().len() as int)[i] == c1.entries()[i]);
        assert(c0.entries()[i] == c1.entries()[i]);
    }
}

/// Two entries stand for one set exactly when they are one entry.
proof fn lemma_canonical_identity_sets(ctx: Context, i: int, j: int)
    requires
        ctx.wf(),
        0 <= i < ctx.entries().len(),
        0 <= j < ctx.entries().len(),
    ensures
        ctx_sets(ctx)[i] == ctx_sets(ctx)[j] <==> i == j,
{
    if i < j {
        assert(ctx.entries()[i].0.to_set() != ctx.entries()[j].0.to_set());
    } else if j < i {
        assert(ctx.entries()[j].0.to_set() != ctx.entries()[i].0.to_set());
    }
}

impl DeterministicFiniteAutomaton {
    /// Subset construction: explores the sets of NFA states reachable
    /// together, breadth over a work list, never visiting one canonical state
    /// twice, and records one transition per discovered (set, symbol) pair.
    /// Some sequence of state sets, in discovery order, witnesses the
    /// construction.
    #[verifier::rlimit(100)]
    pub fn from_nfa(nfa: NondeterministicFiniteAutomaton) -> (dfa: DeterministicFiniteAutomaton)
        ensures
            dfa.deterministic(),
            dfa.start == DFAState(0),
            exists|m: Seq<Set<NFAState>>| subset_construction(nfa.shape(), dfa, m),
    {
        let ghost edges = nfa.edge_set();
        let mut context = Context::new();
        let mut init: Vec<NFAState> = Vec::new();
        init.push(nfa.start);
        let start_states = epsilon_closure(&nfa, &init);
        proof {
            assert(init@.to_set() =~= set![nfa.start]);
            assert(start_states@.to_set() =~= eps_closure(edges, set![nfa.start]));
        }
        let start = context.get_state(&start_states);
        proof {
            assert(ctx_sets(context)[0] == context.entries()[0].0.to_set());
            assert(ctx_sets(context)[0] == eps_closure(edges, set![nfa.start]));
            lemma_eps_closure_idempotent(edges, set![nfa.start]);
        }
        let mut transitions: Vec<DfaEdge> = Vec::new();
        let mut waiting: Vec<Vec<NFAState>> = Vec::new();
        waiting.push(start_states);
        let mut visited: Vec<DFAState> = Vec::new();
        proof {
            assert forall|i: int|
                0 <= i < context.entries().len() implies #[trigger] covered(
                context,
                waiting@,
                visited@,
                i,
            ) by {
                assert((#[trigger] waiting@[0])@.to_set() == ctx_sets(context)[0]);
            }
        }
        while waiting.len() > 0
            invariant
                context.wf(),
                context.entries().len() >= 1,
                start == DFAState(0),
                edges == nfa.edge_set(),
                ctx_sets(context)[0] == eps_closure(edges, set![nfa.start]),
                visited@.no_duplicates(),
                forall|j: int| 0 <= j < visited@.len() ==> (#[trigger] visited@[j]).0
                    < context.count(),
                det_table(transitions@),
                forall|k: int|
                    0 <= k < transitions@.len() ==> visited@.contains(
                        (#[trigger] transitions@[k]).0,
                    ),
                forall|i: int|
                    0 <= i < context.entries().len() ==> eps_closure(
                        edges,
                        #[trigger] ctx_sets(context)[i],
                    ) == ctx_sets(context)[i],
                forall|k: int|
                    0 <= k < waiting@.len() ==> context.has_set((#[trigger] waiting@[k])@.to_set()),
                forall|k: int|
                    0 <= k < transitions@.len() ==> {
                        let e = #[trigger] transitions@[k];
                        &&& e.0.0 < context.entries().len()
                        &&& e.2.0 < context.entries().len()
                        &&& ctx_sets(context)[e.2.0 as int] == eps_closure(
                            edges,
                            step_set(edges, ctx_sets(context)[e.0.0 as int], e.1),
                        )
                        &&& steps_somewhere(edges, ctx_sets(context)[e.0.0 as int], e.1)
                    },
                forall|v: DFAState, c: char|
                    visited@.contains(v) && #[trigger] steps_somewhere(
                        edges,
                        ctx_sets(context)[v.0 as int],
                        c,
                    ) ==> exists|t: DFAState| transitions@.contains((v, c, t)),
                forall|i: int|
                    0 <= i < context.entries().len() ==> #[trigger] covered(
                        context,
                        waiting@,
                        visited@,
                        i,
                    ),
            decreases usize::MAX + 2 - visited@.len(), waiting@.len(),
        {
            let ghost waiting_before = waiting@;
            let look_states = waiting.pop().unwrap();
            let ghost lq = look_states@.to_set();
            proof {
                assert((#[trigger] waiting_before[waiting_before.len() - 1])@.to_set() == lq);
                assert(context.has_set(lq));
            }
            let form_state = context.get_state(&look_states);
            proof {
                lemma_get_state_set(context, lq, form_state);
            }
            let seen = contains_dfastate(&visited, form_state);
            let ghost visited_before = visited@;
            if !seen {
                proof {
                    lemma_distinct_ids_bound(visited@, context.count());
                }
                visited.push(form_state);
                proof {
                    assert forall|i: int|
                        0 <= i < context.entries().len() implies #[trigger] covered(
                        context,
                        waiting@,
                        visited@,
                        i,
                    ) by {
                        if i == form_state.0 {
                            assert(visited@.contains(form_state));
                        } else if !visited@.contains(DFAState(i as usize)) {
                            assert(covered(context, waiting_before, visited_before, i));
                            let k = choose|k: int|
                                0 <= k < waiting_before.len() && (#[trigger] waiting_before[k])@
                                    .to_set() == ctx_sets(context)[i];
                            if k < waiting_before.len() - 1 {
                                assert((#[trigger] waiting@[k])@.to_set() == ctx_sets(context)[i]);
                            } else {
                                assert(waiting_before[k]@.to_set() == lq);
                                lemma_canonical_identity_sets(context, i, form_state.0 as int);
                            }
                        }
                    }
                }
                // the symbols on edges leaving this set of states
                let mut symbols: Vec<char> = Vec::new();
                let mut qi: usize = 0;
                while qi < look_states.len()
                    invariant
                        edges == nfa.edge_set(),
                        lq == look_states@.to_set(),
                        qi <= look_states@.len(),
                        symbols@.no_duplicates(),
                        forall|cc: char|
                            #[trigger] symbols@.contains(cc) ==> exists|s: NFAState, t: NFAState|
                                lq.contains(s) && edges.contains((s, Some(cc), t)),
                        forall|q: int, cc: char, t: NFAState|
                            0 <= q < qi && #[trigger] edges.contains(
                                (look_states@[q], Some(cc), t),
                            ) ==> symbols@.contains(cc),
                    decreases look_states@.len() - qi,
                {
                    let labels = nfa.next_chars(look_states[qi]);
                    let mut li: usize = 0;
                    while li < labels.len()
                        invariant
                            edges == nfa.edge_set(),
                            lq == look_states@.to_set(),
                            qi < look_states@.len(),
                            li <= labels@.len(),
                            symbols@.no_duplicates(),
                            forall|label: Option<char>|
                                labels@.contains(label) <==> exists|to: NFAState|
                                    nfa.has_edge(look_states@[qi as int], label, to),
                            forall|cc: char|
                                #[trigger] symbols@.contains(cc) ==> exists|
                                    s: NFAState,
                                    t: NFAState,
                                |
                                    lq.contains(s) && edges.contains((s, Some(cc), t)),
                            forall|q: int, cc: char, t: NFAState|
                                0 <= q < qi && #[trigger] edges.contains(
                                    (look_states@[q], Some(cc), t),
                                ) ==> symbols@.contains(cc),
                            forall|l: int|
                                0 <= l < li ==> (#[trigger] labels@[l]) is None
                                    || symbols@.contains(labels@[l]->0),
                        decreases labels@.len() - li,
                    {
                        match labels[li] {
                            Some(c) => {
                                proof {
                                    assert(labels@[li as int] == Some(c));
                                    assert(labels@.contains(Some(c)));
                                    assert(look_states@.contains(look_states@[qi as int]));
                                }
                                if !contains_char(&symbols, c) {
                                    symbols.push(c);
                                }
                            }
                            None => {}
                        }
                        li = li + 1;
                    }
                    proof {
                        assert forall|q: int, cc: char, t: NFAState|
                            0 <= q < qi + 1 && #[trigger] edges.contains(
                                (look_states@[q], Some(cc), t),
                            ) implies symbols@.contains(cc) by {
                            if q == qi {
                                assert(nfa.has_edge(look_states@[qi as int], Some(cc), t));
                                assert(labels@.contains(Some(cc)));
                                let l = choose|l: int|
                                    0 <= l < labels@.len() && labels@[l] == Some(cc);
                                assert(!((#[trigger] labels@[l]) is None));
                            }
                        }
                    }
                    qi = qi + 1;
                }
                // one transition per symbol, to the closed target set
                let ghost base = transitions@;
                let mut si: usize = 0;
                while si < symbols.len()
                    invariant
                        context.wf(),
                        context.entries().len() >= 1,
                        start == DFAState(0),
                        edges == nfa.edge_set(),
                        lq == look_states@.to_set(),
                        ctx_sets(context)[0] == eps_closure(edges, set![nfa.start]),
                        visited@.no_duplicates(),
                        forall|j: int| 0 <= j < visited@.len() ==> (#[trigger] visited@[j]).0
                            < context.count(),
                        symbols@.no_duplicates(),
                        si <= symbols@.len(),
                        form_state.0 < context.entries().len(),
                        ctx_sets(context)[form_state.0 as int] == lq,
                        visited@.contains(form_state),
                        forall|cc: char|
                            #[trigger] symbols@.contains(cc) ==> exists|s: NFAState, t: NFAState|
                                lq.contains(s) && edges.contains((s, Some(cc), t)),
                        transitions@.len() == base.len() + si,
                        forall|k: int| 0 <= k < base.len() ==> #[trigger] transitions@[k]
                            == base[k],
                        forall|k: int|
                            0 <= k < base.len() ==> (#[trigger] transitions@[k]).0 != form_state,
                        forall|m: int|
                            0 <= m < si ==> (#[trigger] transitions@[base.len() + m]).0
                                == form_state && transitions@[base.len() + m].1 == symbols@[m],
                        det_table(transitions@),
                        forall|k: int|
                            0 <= k < transitions@.len() ==> visited@.contains(
                                (#[trigger] transitions@[k]).0,
                            ),
                        forall|i: int|
                            0 <= i < context.entries().len() ==> eps_closure(
                                edges,
                                #[trigger] ctx_sets(context)[i],
                            ) == ctx_sets(context)[i],
                        forall|k: int|
                            0 <= k < waiting@.len() ==> context.has_set(
                                (#[trigger] waiting@[k])@.to_set(),
                            ),
                        forall|k: int|
                            0 <= k < transitions@.len() ==> {
                                let e = #[trigger] transitions@[k];
                                &&& e.0.0 < context.entries().len()
                                &&& e.2.0 < context.entries().len()
                                &&& ctx_sets(context)[e.2.0 as int] == eps_closure(
                                    edges,
                                    step_set(edges, ctx_sets(context)[e.0.0 as int], e.1),
                                )
                                &&& steps_somewhere(edges, ctx_sets(context)[e.0.0 as int], e.1)
                            },
                        forall|v: DFAState, c: char|
                            visited@.contains(v) && v != form_state && #[trigger] steps_somewhere(
                                edges,
                                ctx_sets(context)[v.0 as int],
                                c,
                            ) ==> exists|t: DFAState| transitions@.contains((v, c, t)),
                        forall|i: int|
                            0 <= i < context.entries().len() ==> #[trigger] covered(
                                context,
                                waiting@,
                                visited@,
                                i,
                            ),
                    decreases symbols@.len() - si,
                {
                    let c = symbols[si];
                    let mut targets: Vec<NFAState> = Vec::new();
                    let mut qj: usize = 0;
                    while qj < look_states.len()
                        invariant
                            edges == nfa.edge_set(),
                            qj <= look_states@.len(),
                            forall|t: NFAState|
                                #[trigger] targets@.contains(t) <==> exists|q: int|
                                    0 <= q < qj && edges.contains(
                                        (look_states@[q], Some(c), t),
                                    ),
                        decreases look_states@.len() - qj,
                    {
                        let succ = nfa.next_states(look_states[qj], Some(c));
                        let mut sk: usize = 0;
                        while sk < succ.len()
                            invariant
                                edges == nfa.edge_set(),
                                qj < look_states@.len(),
                                sk <= succ@.len(),
                                forall|to: NFAState|
                                    succ@.contains(to) <==> nfa.has_edge(
                                        look_states@[qj as int],
                                        Some(c),
                                        to,
                                    ),
                                forall|t: NFAState|
                                    #[trigger] targets@.contains(t) <==> (exists|q: int|
                                        0 <= q < qj && edges.contains(
                                            (look_states@[q], Some(c), t),
                                        )) || (exists|l: int|
                                        0 <= l < sk && #[trigger] succ@[l] == t),
                            decreases succ@.len() - sk,
                        {
                            targets.push(succ[sk]);
                            proof {
                                assert(targets@.contains(succ@[sk as int]));
                            }
                            sk = sk + 1;
                        }
                        proof {
                            assert forall|t: NFAState|
                                #[trigger] targets@.contains(t) <==> exists|q: int|
                                    0 <= q < qj + 1 && edges.contains(
                                        (look_states@[q], Some(c), t),
                                    ) by {
                                if targets@.contains(t) {
                                    if exists|l: int| 0 <= l < succ@.len() && #[trigger] succ@[l]
                                        == t {
                                        assert(succ@.contains(t));
                                        assert(edges.contains(
                                            (look_states@[qj as int], Some(c), t),
                                        ));
                                    }
                                }
                                if exists|q: int|
                                    0 <= q < qj + 1 && edges.contains(
                                        (look_states@[q], Some(c), t),
                                    ) {
                                    let q = choose|q: int|
                                        0 <= q < qj + 1 && edges.contains(
                                            (look_states@[q], Some(c), t),
                                        );
                                    if q == qj {
                                        assert(succ@.contains(t));
                                        let l = choose|l: int|
                                            0 <= l < succ@.len() && succ@[l] == t;
                                        assert(0 <= l < succ@.len() && #[trigger] succ@[l] == t);
                                    }
                                }
                            }
                        }
                        qj = qj + 1;
                    }
                    proof {
                        assert forall|t: NFAState|
                            targets@.to_set().contains(t) <==> step_set(edges, lq, c).contains(
                            t,
                        ) by {
                            if targets@.contains(t) {
                                let q = choose|q: int|
                                    0 <= q < look_states@.len() && edges.contains(
                                        (look_states@[q], Some(c), t),
                                    );
                                assert(lq.contains(look_states@[q]));
                            }
                            if step_set(edges, lq, c).contains(t) {
                                let s = choose|s: NFAState|
                                    lq.contains(s) && #[trigger] edges.contains((s, Some(c), t));
                                let q = choose|q: int|
                                    0 <= q < look_states@.len() && look_states@[q] == s;
                            }
                        }
                        assert(targets@.to_set() =~= step_set(edges, lq, c));
                    }
                    let closed = epsilon_closure(&nfa, &targets);
                    proof {
                        assert(closed@.to_set() =~= eps_closure(edges, step_set(edges, lq, c)));
                        lemma_eps_closure_idempotent(edges, step_set(edges, lq, c));
                        assert(symbols@.contains(symbols@[si as int]));
                        let (ws, wt) = choose|s: NFAState, t: NFAState|
                            lq.contains(s) && edges.contains((s, Some(c), t));
                        assert(step_set(edges, lq, c).contains(wt));
                        assert(steps_somewhere(edges, lq, c));
                    }
                    let ghost ctx_before = context;
                    let to_state = context.get_state(&closed);
                    proof {
                        lemma_get_state_set(context, closed@.to_set(), to_state);
                        if !ctx_before.has_set(closed@.to_set()) {
                            lemma_ctx_grow(ctx_before, context);
                        }
                    }
                    let pending = contains_dfastate(&visited, to_state);
                    let ghost waiting_pre = waiting@;
                    if !pending {
                        waiting.push(closed);
                    }
                    proof {
                        if pending {
                            assert forall|i: int|
                                0 <= i < context.entries().len() implies #[trigger] covered(
                                context,
                                waiting@,
                                visited@,
                                i,
                            ) by {
                                if i == to_state.0 {
                                    assert(visited@.contains(to_state));
                                } else if i < ctx_before.entries().len() {
                                    assert(covered(ctx_before, waiting_pre, visited@, i));
                                    if !visited@.contains(DFAState(i as usize)) {
                                        let k = choose|k: int|
                                            0 <= k < waiting_pre.len() && (
                                            #[trigger] waiting_pre[k])@.to_set() == ctx_sets(
                                                ctx_before,
                                            )[i];
                                        if !ctx_before.has_set(closed@.to_set()) {
                                            lemma_ctx_grow(ctx_before, context);
                                        }
                                        assert((#[trigger] waiting@[k])@.to_set() == ctx_sets(
                                            context,
                                        )[i]);
                                    }
                                } else {
                                    lemma_canonical_identity_sets(context, i, to_state.0 as int);
                                }
                            }
                        } else {
                            assert forall|i: int|
                                0 <= i < context.entries().len() implies #[trigger] covered(
                                context,
                                waiting@,
                                visited@,
                                i,
                            ) by {
                                if i == to_state.0 {
                                    assert((#[trigger] waiting@[waiting@.len() - 1])@.to_set()
                                        == ctx_sets(context)[i]);
                                } else if !visited@.contains(DFAState(i as usize)) {
                                    if i < ctx_before.entries().len() {
                                        assert(covered(ctx_before, waiting_pre, visited@, i));
                                        let k = choose|k: int|
                                            0 <= k < waiting_pre.len() && (
                                            #[trigger] waiting_pre[k])@.to_set() == ctx_sets(
                                                ctx_before,
                                            )[i];
                                        if !ctx_before.has_set(closed@.to_set()) {
                                            lemma_ctx_grow(ctx_before, context);
                                        }
                                        assert(waiting@[k] == waiting_pre[k]);
                                        assert((#[trigger] waiting@[k])@.to_set() == ctx_sets(
                                            context,
                                        )[i]);
                                    } else {
                                        lemma_canonical_identity_sets(
                                            context,
                                            i,
                                            to_state.0 as int,
                                        );
                                    }
                                }
                            }
                        }
                    }
                    let ghost trans_before = transitions@;
                    proof {
                        assert forall|x: int, y: int|
                            0 <= x < y < trans_before.push(
                                (form_state, c, to_state),
                            ).len() implies !((#[trigger] trans_before.push(
                            (form_state, c, to_state),
                        )[x]).0 == (#[trigger] trans_before.push((form_state, c, to_state))[y]).0
                            && trans_before.push((form_state, c, to_state))[x].1
                            == trans_before.push((form_state, c, to_state))[y].1) by {
                            let n = trans_before.push((form_state, c, to_state));
                            if y < trans_before.len() {
                                assert(n[x] == trans_before[x] && n[y] == trans_before[y]);
                            } else {
                                assert(n[y] == (form_state, c, to_state));
                                assert(n[x] == trans_before[x]);
                                if x >= base.len() {
                                    let m = x - base.len();
                                    assert((#[trigger] trans_before[base.len() + m]).0
                                        == form_state && trans_before[base.len() + m].1
                                        == symbols@[m]);
                                    assert(trans_before[x].1 == symbols@[m]);
                                    assert(symbols@[m] != symbols@[si as int]);
                                }
                            }
                        }
                    }
                    transitions.push((form_state, c, to_state));
                    proof {
                        assert forall|v: DFAState, c2: char|
                            visited@.contains(v) && v != form_state && #[trigger] steps_somewhere(
                                edges,
                                ctx_sets(context)[v.0 as int],
                                c2,
                            ) implies exists|t: DFAState| transitions@.contains((v, c2, t)) by {
                            assert(v.0 < ctx_before.entries().len());
                            if !ctx_before.has_set(closed@.to_set()) {
                                lemma_ctx_grow(ctx_before, context);
                            }
                            assert(ctx_sets(context)[v.0 as int] == ctx_sets(
                                ctx_before,
                            )[v.0 as int]);
                            assert(steps_somewhere(edges, ctx_sets(ctx_before)[v.0 as int], c2));
                            let t = choose|t: DFAState|
                                #[trigger] trans_before.contains((v, c2, t));
                            assert(transitions@.contains((v, c2, t)));
                        }
                    }
                    si = si + 1;
                }
                proof {
                    assert forall|v: DFAState, cc: char|
                        visited@.contains(v) && #[trigger] steps_somewhere(
                            edges,
                            ctx_sets(context)[v.0 as int],
                            cc,
                        ) implies exists|t: DFAState| transitions@.contains((v, cc, t)) by {
                        if v == form_state {
                            assert(steps_somewhere(edges, lq, cc));
                            let wt = choose|wt: NFAState|
                                #[trigger] step_set(edges, lq, cc).contains(wt);
                            let ws = choose|ws: NFAState|
                                lq.contains(ws) && #[trigger] edges.contains((ws, Some(cc), wt));
                            let q = choose|q: int|
                                0 <= q < look_states@.len() && look_states@[q] == ws;
                            assert(edges.contains((look_states@[q], Some(cc), wt)));
                            assert(symbols@.contains(cc));
                            let m = choose|m: int|
                                0 <= m < symbols@.len() && symbols@[m] == cc;
                            assert((#[trigger] transitions@[base.len() + m]).0 == form_state
                                && transitions@[base.len() + m].1 == symbols@[m]);
                            assert(transitions@.contains(
                                (v, cc, transitions@[base.len() + m].2),
                            ));
                        }
                    }
                }
            } else {
                proof {
                    assert forall|i: int|
                        0 <= i < context.entries().len() implies #[trigger] covered(
                        context,
                        waiting@,
                        visited@,
                        i,
                    ) by {
                        if !visited@.contains(DFAState(i as usize)) {
                            assert(covered(context, waiting_before, visited@, i));
                            let k = choose|k: int|
                                0 <= k < waiting_before.len() && (#[trigger] waiting_before[k])@
                                    .to_set() == ctx_sets(context)[i];
                            if k < waiting_before.len() - 1 {
                                assert((#[trigger] waiting@[k])@.to_set() == ctx_sets(context)[i]);
                            } else {
                                assert(waiting_before[k]@.to_set() == lq);
                                lemma_canonical_identity_sets(context, i, form_state.0 as int);
                                assert(visited@.contains(form_state));
                            }
                        }
                    }
                }
            }
        }
        // a DFA state accepts exactly when its set holds an accepting NFA
        // state
        let mut accepts: Vec<DFAState> = Vec::new();
        let mut ei: usize = 0;
        while ei < context.state_map.len()
            invariant
                context.wf(),
                ei <= context.entries().len(),
                forall|d: DFAState| #[trigger] accepts@.contains(d) ==> d.0 < ei,
                forall|i: int|
                    0 <= i < ei ==> (accepts@.contains(DFAState(i as usize)) <==> holds_accepting(
                        #[trigger] ctx_sets(context)[i],
                        nfa.accept_set(),
                    )),
            decreases context.entries().len() - ei,
        {
            let mut any: bool = false;
            let klen = context.state_map[ei].0.len();
            let mut kj: usize = 0;
            while kj < klen
                invariant
                    context.wf(),
                    ei < context.entries().len(),
                    klen == context.entries()[ei as int].0.len(),
                    kj <= klen,
                    any <==> exists|j: int|
                        0 <= j < kj && nfa.accept_set().contains(
                            #[trigger] context.entries()[ei as int].0[j],
                        ),
                decreases klen - kj,
            {
                let st = context.state_map[ei].0[kj];
                let is_accept = contains_state(&nfa.accepts, st);
                proof {
                    assert(context.entries()[ei as int].0[kj as int] == st);
                    if is_accept {
                        assert(nfa.accept_set().contains(
                            context.entries()[ei as int].0[kj as int],
                        ));
                    }
                }
                if is_accept {
                    any = true;
                }
                kj = kj + 1;
            }
            let ghost acc_before = accepts@;
            if any {
                let id = context.state_map[ei].1;
                proof {
                    assert(context.entries()[ei as int] == (
                        context.state_map@[ei as int].0@,
                        context.state_map@[ei as int].1,
                    ));
                    assert(context.entries()[ei as int].1 == id);
                    assert(id == DFAState(ei as usize));
                }
                accepts.push(id);
            }
            proof {
                let key = context.entries()[ei as int].0;
                assert(ctx_sets(context)[ei as int] == key.to_set());
                assert forall|i: int|
                    0 <= i < ei + 1 implies (accepts@.contains(DFAState(i as usize))
                    <==> holds_accepting(
                    #[trigger] ctx_sets(context)[i],
                    nfa.accept_set(),
                )) by {
                    if i == ei {
                        if any {
                            assert(accepts@ == acc_before.push(DFAState(ei as usize)));
                            assert(accepts@.contains(DFAState(i as usize)));
                            let j = choose|j: int|
                                0 <= j < klen && nfa.accept_set().contains(#[trigger] key[j]);
                            assert(key.to_set().contains(key[j]));
                            assert(ctx_sets(context)[i].contains(key[j]));
                            assert(holds_accepting(ctx_sets(context)[i], nfa.accept_set()));
                        } else {
                            if holds_accepting(ctx_sets(context)[i], nfa.accept_set()) {
                                let s2 = choose|s2: NFAState|
                                    ctx_sets(context)[i].contains(s2)
                                        && #[trigger] nfa.accept_set().contains(s2);
                                assert(key.to_set().contains(s2));
                                let j = choose|j: int| 0 <= j < key.len() && key[j] == s2;
                                assert(nfa.accept_set().contains(#[trigger] key[j]));
                            }
                            if accepts@.contains(DFAState(i as usize)) {
                                assert(DFAState(i as usize).0 < ei);
                            }
                        }
                    } else {
                        if any {
                            assert(accepts@ == acc_before.push(DFAState(ei as usize)));
                            assert(DFAState(i as usize) != DFAState(ei as usize));
                            assert(accepts@.contains(DFAState(i as usize)) == acc_before.contains(
                                DFAState(i as usize),
                            ));
                        }
                    }
                }
            }
            ei = ei + 1;
        }
        let ghost trans_final = transitions@;
        let dfa = DeterministicFiniteAutomaton { start, accepts, transitions };
        proof {
            assert(dfa.transitions@ == trans_final);
            let m = ctx_sets(context);
            assert forall|i: int, j: int| 0 <= i < j < m.len() implies m[i] != m[j] by {
                lemma_canonical_identity_sets(context, i, j);
            }
            assert forall|e: DfaEdge| #[trigger] dfa.transitions@.contains(e) implies e.0.0
                < m.len() && e.2.0 < m.len() && m[e.2.0 as int] == eps_closure(
                edges,
                step_set(edges, m[e.0.0 as int], e.1),
            ) && steps_somewhere(edges, m[e.0.0 as int], e.1) by {
                let k = choose|k: int|
                    0 <= k < trans_final.len() && trans_final[k] == e;
                assert((#[trigger] trans_final[k]) == e);
            }
            assert forall|i: int, c: char|
                0 <= i < m.len() && #[trigger] steps_somewhere(edges, m[i], c) implies exists|
                t: DFAState,
            |
                #[trigger] dfa.has_transition(DFAState(i as usize), c, t) by {
                assert(covered(context, waiting@, visited@, i));
                assert(visited@.contains(DFAState(i as usize)));
                assert(DFAState(i as usize).0 as int == i);
                assert(steps_somewhere(
                    edges,
                    ctx_sets(context)[DFAState(i as usize).0 as int],
                    c,
                ));
                let t = choose|t: DFAState|
                    #[trigger] trans_final.contains((DFAState(i as usize), c, t));
                assert(dfa.has_transition(DFAState(i as usize), c, t));
            }
            assert(subset_construction(nfa.shape(), dfa, m));
        }
        dfa
    }
}

/// The set-simulation of an automaton: start from `q`, and for each symbol
/// in turn take every edge that carries it, then close under epsilon edges.
pub open spec fn nfa_run(edges: Set<NfaEdge>, q: Set<NFAState>, s: Seq<char>) -> Set<NFAState>
    decreases s.len(),
{
    if s.len() == 0 {
        q
    } else {
        nfa_run(edges, eps_closure(edges, step_set(edges, q, s[0])), s.skip(1))
    }
}

/// Nothing is epsilon-reachable from nowhere.
pub proof fn lemma_eps_closure_empty(edges: Set<NfaEdge>)
    ensures
        eps_closure(edges, Set::<NFAState>::empty()) == Set::<NFAState>::empty(),
{
    reveal(eps_reachable);
    assert(eps_closure(edges, Set::<NFAState>::empty()) =~= Set::<NFAState>::empty());
}

/// Once the simulated set is empty it stays empty: no symbol leads anywhere.
pub proof fn lemma_nfa_run_empty(edges: Set<NfaEdge>, s: Seq<char>)
    ensures
        nfa_run(edges, Set::<NFAState>::empty(), s) == Set::<NFAState>::empty(),
    decreases s.len(),
{
    if s.len() > 0 {
        assert(step_set(edges, Set::<NFAState>::empty(), s[0]) =~= Set::<NFAState>::empty());
        lemma_eps_closure_empty(edges);
        lemma_nfa_run_empty(edges, s.skip(1));
    }
}

} // verus!
