use dfa_regex::automaton::dfa::{Context, DFAState, DeterministicFiniteAutomaton};
use dfa_regex::automaton::nfa::{NFAState, NondeterministicFiniteAutomaton};

#[test]
fn dfa_context() {
    let mut context = Context::new();
    assert_eq!(context.get_state(&vec![NFAState(0)]), DFAState(0));
    assert_eq!(
        context.get_state(&vec![NFAState(0), NFAState(1)]),
        DFAState(1)
    );
    assert_eq!(
        context.get_state(&vec![NFAState(1), NFAState(2), NFAState(3)]),
        DFAState(2)
    );
    assert_eq!(context.get_state(&vec![]), DFAState(3));
    assert_eq!(context.get_state(&vec![NFAState(0)]), DFAState(0));
    assert_eq!(
        context.get_state(&vec![NFAState(2), NFAState(1), NFAState(3)]),
        DFAState(2)
    );
    assert_eq!(context.get_state(&vec![NFAState(4)]), DFAState(4));
}

#[test]
fn dfa_from_nfa_simple() {
    // -> 0 --a--> 1
    // accept: 1
    let dfa = DeterministicFiniteAutomaton::from_nfa(
        NondeterministicFiniteAutomaton::new(NFAState(0), vec![NFAState(1)]).add_transition(
            NFAState(0),
            'a',
            NFAState(1),
        ),
    );

    // -> 0 --a--> 1
    // accept: 1
    assert_eq!(dfa.start, DFAState(0));
    assert_eq!(dfa.accepts, vec![DFAState(1)]);
    assert_eq!(dfa.transitions.len(), 1);
    assert_eq!(dfa.next_state(DFAState(0), 'a'), Some(DFAState(1)));
}

#[test]
fn dfa_from_nfa_simple_concat() {
    // -> 0 --a--> 1 --b--> 2
    // accept: 2
    let dfa = DeterministicFiniteAutomaton::from_nfa(
        NondeterministicFiniteAutomaton::new(NFAState(0), vec![NFAState(2)])
            .add_transition(NFAState(0), 'a', NFAState(1))
            .add_transition(NFAState(1), 'b', NFAState(2)),
    );

    // -> 0 --a--> 1 --b--> 2
    // accept: 2
    assert_eq!(dfa.start, DFAState(0));
    assert_eq!(dfa.accepts, vec![DFAState(2)]);
    assert_eq!(dfa.transitions.len(), 2);
    assert_eq!(dfa.next_state(DFAState(0), 'a'), Some(DFAState(1)));
    assert_eq!(dfa.next_state(DFAState(1), 'b'), Some(DFAState(2)));
}

#[test]
fn dfa_from_nfa_simple_union() {
    //     /--e--> 1 --a--> 2
    // -> 0
    //     \--e--> 3 --b--> 4
    // accept: 2, 4
    let dfa = DeterministicFiniteAutomaton::from_nfa(
        NondeterministicFiniteAutomaton::new(NFAState(0), vec![NFAState(2), NFAState(4)])
            .add_empty_transition(NFAState(0), NFAState(1))
            .add_empty_transition(NFAState(0), NFAState(3))
            .add_transition(NFAState(1), 'a', NFAState(2))
            .add_transition(NFAState(3), 'b', NFAState(4)),
    );

    //     /--a--> 1 (or 2)
    // -> 0
    //     \--b--> 2 (or 1)
    // accept: 1, 2
    assert_eq!(dfa.start, DFAState(0));
    let mut accepts = dfa.accepts.clone();
    accepts.sort();
    assert_eq!(accepts, vec![DFAState(1), DFAState(2)]);
    assert_eq!(dfa.transitions.len(), 2);
    if dfa.next_state(DFAState(0), 'a') == Some(DFAState(1)) {
        assert_eq!(dfa.next_state(DFAState(0), 'b'), Some(DFAState(2)));
    } else {
        assert_eq!(dfa.next_state(DFAState(0), 'a'), Some(DFAState(2)));
        assert_eq!(dfa.next_state(DFAState(0), 'b'), Some(DFAState(1)));
    }
}

#[test]
fn dfa_from_nfa_simple_star() {
    // -> 0 --e--> 1 --a--> 2
    //              \<--e--/
    // accept: 0, 2
    let dfa = DeterministicFiniteAutomaton::from_nfa(
        NondeterministicFiniteAutomaton::new(NFAState(0), vec![NFAState(0), NFAState(2)])
            .add_empty_transition(NFAState(0), NFAState(1))
            .add_transition(NFAState(1), 'a', NFAState(2))
            .add_empty_transition(NFAState(2), NFAState(1)),
    );

    // -> 0 --a--> 1
    //            / \
    //           /   \
    //           <-a-/
    // accept: 0, 1
    assert_eq!(dfa.start, DFAState(0));
    let mut accepts = dfa.accepts.clone();
    accepts.sort();
    assert_eq!(accepts, vec![DFAState(0), DFAState(1)]);
    assert_eq!(dfa.transitions.len(), 2);
    assert_eq!(dfa.next_state(DFAState(0), 'a'), Some(DFAState(1)));
    assert_eq!(dfa.next_state(DFAState(1), 'a'), Some(DFAState(1)));
}

#[test]
fn dfa_from_nfa_complex() {
    // -> 0 --x--> 1
    //            /
    //    /<--e---
    //    |         /<--e--\
    //    4 --e--> 2 --y--> 3
    //    \                /
    //     \        /<--e--
    //      --e--> 5 --z--> 6
    // accept: 6
    let dfa = DeterministicFiniteAutomaton::from_nfa(
        NondeterministicFiniteAutomaton::new(NFAState(0), vec![NFAState(6)])
            .add_transition(NFAState(0), 'x', NFAState(1))
            .add_empty_transition(NFAState(1), NFAState(2))
            .add_empty_transition(NFAState(1), NFAState(5))
            .add_transition(NFAState(2), 'y', NFAState(3))
            .add_transition(NFAState(5), 'z', NFAState(6))
            .add_empty_transition(NFAState(3), NFAState(2))
            .add_empty_transition(NFAState(3), NFAState(5)),
    );

    // -> 0 --x--> 1
    //            / \
    //    /<--y---   ---z-->\
    //    |                 |
    //    2 -------z------> 3
    //   / \
    //  /   \
    //  <-y-/
    // accept: 3
    // NOTE: 2 and 3 can be swapped
    assert_eq!(dfa.start, DFAState(0));
    assert_eq!(dfa.transitions.len(), 5);
    let (s2, s3) = if dfa.accepts == vec![DFAState(3)] {
        (2, 3)
    } else {
        (3, 2)
    };
    assert_eq!(dfa.next_state(DFAState(0), 'x'), Some(DFAState(1)));
    assert_eq!(dfa.next_state(DFAState(1), 'y'), Some(DFAState(s2)));
    assert_eq!(dfa.next_state(DFAState(1), 'z'), Some(DFAState(s3)));
    assert_eq!(dfa.next_state(DFAState(s2), 'z'), Some(DFAState(s3)));
    assert_eq!(dfa.next_state(DFAState(s2), 'y'), Some(DFAState(s2)));
}
