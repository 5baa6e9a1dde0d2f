pub mod automaton;
pub mod lexer;
pub mod parser;

use vstd::prelude::*;

use crate::automaton::dfa::{
    eps_closure, holds_accepting, lemma_eps_closure_empty, lemma_nfa_run_empty, nfa_run,
    step_set, subset_construction, DFAState, DeterministicFiniteAutomaton,
};
use crate::automaton::nfa::{spec_assemble, NFAState, NfaShape, NondeterministicFiniteAutomaton};
use crate::lexer::{scan_ok, Lexer};
use crate::parser::{node_states, spec_parse_pattern, Parser};

verus! {

/// Where the automaton stands after reading `s` from `state`, one symbol at
/// a time: `None` as soon as a symbol has no transition.
pub open spec fn spec_run(
    dfa: DeterministicFiniteAutomaton,
    state: DFAState,
    s: Seq<char>,
) -> Option<DFAState>
    decreases s.len(),
{
    if s.len() == 0 {
        Some(state)
    } else {
        match dfa.spec_next(state, s[0]) {
            Some(t) => spec_run(dfa, t, s.skip(1)),
            None => None,
        }
    }
}

/// Whole-string acceptance: the walk from the start state reads every symbol
/// and ends in an accepting state.
pub open spec fn spec_accepts(dfa: DeterministicFiniteAutomaton, s: Seq<char>) -> bool {
    match spec_run(dfa, dfa.start, s) {
        Some(t) => dfa.accept_set().contains(t),
        None => false,
    }
}

/// The automaton inside `regex` is the subset construction of the Thompson
/// automaton of the tree that `pattern` parses to.
pub open spec fn compiled_from(pattern: Seq<char>, regex: Regex) -> bool {
    exists|m: Seq<Set<NFAState>>|
        subset_construction(
            spec_assemble(spec_parse_pattern(pattern)->Some_0, 0).0,
            regex.automaton(),
            m,
        )
}

/// A compiled pattern: the deterministic automaton it denotes. Matching
/// never changes it, so one compiled pattern serves any number of calls.
#[derive(Debug)]
pub struct Regex {
    dfa: DeterministicFiniteAutomaton,
}

impl Regex {
    /// The automaton this pattern compiled to.
    pub closed spec fn automaton(self) -> DeterministicFiniteAutomaton {
        self.dfa
    }

    #[verifier::type_invariant]
    pub closed spec fn wf(self) -> bool {
        self.dfa.deterministic()
    }

    /// Compiles a pattern: scans and parses it, assembles the NFA, and
    /// determinizes that. Succeeds exactly where the grammar derives a tree
    /// from the pattern; on a malformed pattern the parser's message comes
    /// back and no automaton is built.
    pub fn new(pattern: &str) -> (r: Result<Regex, String>)
        requires
            scan_ok(pattern@, 0),
            3 * pattern@.len() + 5 <= u32::MAX,
        ensures
            r is Ok <==> spec_parse_pattern(pattern@) is Some,
            r is Ok ==> compiled_from(pattern@, r->Ok_0),
    {
        let lexer = Lexer::new(pattern);
        let mut parser = Parser::new(lexer);
        let ghost m0 = parser.measure();
        let node = match parser.parse() {
            Ok(n) => n,
            Err(e) => return Err(e),
        };
        proof {
            parser.lemma_measure_nonneg();
            assert(node_states(node) <= 3 * (m0 - parser.measure()) + 2);
            assert(node_states(node) <= u32::MAX);
        }
        let ghost parsed = node;
        let nfa = NondeterministicFiniteAutomaton::from_node(node);
        let ghost shape = nfa.shape();
        let dfa = DeterministicFiniteAutomaton::from_nfa(nfa);
        let regex = Regex { dfa };
        proof {
            assert(spec_parse_pattern(pattern@) == Some(parsed));
            assert(shape == spec_assemble(parsed, 0).0);
            let m = choose|m: Seq<Set<NFAState>>| subset_construction(shape, dfa, m);
            assert(spec_parse_pattern(pattern@)->Some_0 == parsed);
            assert(subset_construction(
                spec_assemble(spec_parse_pattern(pattern@)->Some_0, 0).0,
                regex.automaton(),
                m,
            ));
            assert(compiled_from(pattern@, regex));
        }
        Ok(regex)
    }

    /// Whole-string matching, anchored at both ends: walks the automaton one
    /// symbol at a time from the start state; a symbol without a transition
    /// rejects at once; after the last symbol the text matches exactly when
    /// the state reached is an accepting one. Never fails: a non-match is an
    /// ordinary `false`.
    pub fn matches(&self, text: &str) -> (r: bool)
        ensures
            r == spec_accepts(self.automaton(), text@),
    {
        proof {
            use_type_invariant(self);
        }
        let n = text.unicode_len();
        let mut current_state = self.dfa.start;
        let mut i: usize = 0;
        proof {
            assert(text@.skip(0) =~= text@);
        }
        while i < n
            invariant
                self.dfa.deterministic(),
                n == text@.len(),
                i <= n,
                spec_run(self.dfa, self.dfa.start, text@) == spec_run(
                    self.dfa,
                    current_state,
                    text@.skip(i as int),
                ),
            decreases n - i,
        {
            let c = text.get_char(i);
            proof {
                assert(text@.skip(i as int)[0] == c);
                assert(text@.skip(i as int).skip(1) =~= text@.skip(i + 1));
            }
            match self.dfa.next_state(current_state, c) {
                Some(state) => {
                    current_state = state;
                }
                None => {
                    return false;
                }
            }
            i = i + 1;
        }
        proof {
            assert(text@.skip(n as int) =~= Seq::<char>::empty());
        }
        self.dfa.is_accepting(current_state)
    }
}

/// A DFA built by subset construction tracks the set-simulation of its NFA:
/// reading `s` from the state standing for a discovered set arrives at the
/// state standing for the simulation's final set, and fails exactly where
/// that set has gone empty.
pub proof fn lemma_run_tracks_sets(
    f: NfaShape,
    dfa: DeterministicFiniteAutomaton,
    m: Seq<Set<NFAState>>,
    i: usize,
    s: Seq<char>,
)
    requires
        subset_construction(f, dfa, m),
        i < m.len(),
    ensures
        match spec_run(dfa, DFAState(i), s) {
            Some(d) => d.0 < m.len() && m[d.0 as int] == nfa_run(f.edges, m[i as int], s),
            None => nfa_run(f.edges, m[i as int], s) == Set::<NFAState>::empty(),
        },
    decreases s.len(),
{
    if s.len() > 0 {
        let c = s[0];
        match dfa.spec_next(DFAState(i), c) {
            Some(t) => {
                assert(dfa.has_transition(DFAState(i), c, t));
                assert(dfa.transitions@.contains((DFAState(i), c, t)));
                assert(m[t.0 as int] == eps_closure(f.edges, step_set(f.edges, m[i as int], c)));
                lemma_run_tracks_sets(f, dfa, m, t.0, s.skip(1));
                assert(DFAState(t.0) == t);
            }
            None => {
                assert(!crate::automaton::dfa::steps_somewhere(f.edges, m[i as int], c)) by {
                    if crate::automaton::dfa::steps_somewhere(f.edges, m[i as int], c) {
                        let w = choose|w: DFAState|
                            #[trigger] dfa.has_transition(DFAState(i), c, w);
                    }
                }
                assert(step_set(f.edges, m[i as int], c) =~= Set::<NFAState>::empty());
                lemma_eps_closure_empty(f.edges);
                lemma_nfa_run_empty(f.edges, s.skip(1));
            }
        }
    }
}

/// Determinization is faithful for whole strings: on a compiled pattern the
/// matcher's verdict is exactly the verdict of the set-simulation of the
/// Thompson automaton of the parsed tree — epsilon-close its start state,
/// then step and close once per symbol, and accept exactly when the final
/// set holds an accepting state.
pub proof fn lemma_matches_agrees_with_simulation(pattern: Seq<char>, regex: Regex, s: Seq<char>)
    requires
        compiled_from(pattern, regex),
    ensures
        ({
            let f = spec_assemble(spec_parse_pattern(pattern)->Some_0, 0).0;
            spec_accepts(regex.automaton(), s) == holds_accepting(
                nfa_run(f.edges, eps_closure(f.edges, set![f.start]), s),
                f.accepts,
            )
        }),
{
    let f = spec_assemble(spec_parse_pattern(pattern)->Some_0, 0).0;
    let dfa = regex.automaton();
    let m = choose|m: Seq<Set<NFAState>>| subset_construction(f, dfa, m);
    lemma_run_tracks_sets(f, dfa, m, 0usize, s);
    assert(dfa.start == DFAState(0));
    assert(m[0] == eps_closure(f.edges, set![f.start]));
    match spec_run(dfa, DFAState(0), s) {
        Some(d) => {
            assert(d == DFAState(d.0));
            assert((d.0 as int) < m.len());
            assert(dfa.accept_set().contains(DFAState((d.0 as int) as usize)) <==> holds_accepting(
                m[d.0 as int],
                f.accepts,
            ));
        }
        None => {
            assert(!holds_accepting(Set::<NFAState>::empty(), f.accepts)) by {
                if holds_accepting(Set::<NFAState>::empty(), f.accepts) {
                    let w = choose|w: NFAState|
                        Set::<NFAState>::empty().contains(w) && #[trigger] f.accepts.contains(w);
                }
            }
        }
    }
}

} // verus!
