use dfa_regex::automaton::nfa::{Context, NFAState, NondeterministicFiniteAutomaton};
use dfa_regex::parser::Node;

#[test]
fn context() {
    let mut context = Context::new();
    assert_eq!(context.new_state(), NFAState(0));
    assert_eq!(context.new_state(), NFAState(1));
    assert_eq!(context.new_state(), NFAState(2));
}

#[test]
fn from_character_node() {
    let nfa = NondeterministicFiniteAutomaton::from_node(Node::Character('a'));

    // -> 0 --a--> 1
    // accept: 1
    assert_eq!(nfa.start, NFAState(0));
    assert_eq!(nfa.accepts, vec![NFAState(1)]);
    assert_eq!(nfa.transitions.len(), 1);
    assert_eq!(nfa.next_states(NFAState(0), Some('a')), vec![NFAState(1)]);
}

#[test]
fn from_empty_node() {
    let nfa = NondeterministicFiniteAutomaton::from_node(Node::Empty);

    // -> 0 --e--> 1
    // accept: 1
    assert_eq!(nfa.start, NFAState(0));
    assert_eq!(nfa.accepts, vec![NFAState(1)]);
    assert_eq!(nfa.transitions.len(), 1);
    assert_eq!(nfa.next_states(NFAState(0), None), vec![NFAState(1)]);
}

#[test]
fn from_star_node() {
    let nfa =
        NondeterministicFiniteAutomaton::from_node(Node::Star(Box::new(Node::Character('a'))));

    //              /<--e--\
    // -> 2 --e--> 0 --a--> 1
    // accept: 2, 1
    assert_eq!(nfa.start, NFAState(2));
    let mut accepts = nfa.accepts.clone();
    accepts.sort();
    assert_eq!(accepts, vec![NFAState(1), NFAState(2)]);
    assert_eq!(nfa.transitions.len(), 3);
    assert_eq!(nfa.next_states(NFAState(2), None), vec![NFAState(0)]);
    assert_eq!(nfa.next_states(NFAState(0), Some('a')), vec![NFAState(1)]);
    assert_eq!(nfa.next_states(NFAState(1), None), vec![NFAState(0)]);
}

#[test]
fn from_union_node() {
    let nfa = NondeterministicFiniteAutomaton::from_node(Node::Union(
        Box::new(Node::Character('a')),
        Box::new(Node::Character('b')),
    ));

    //     /--e--> 0 --a--> 1
    // -> 4
    //     \--e--> 2 --b--> 3
    // accept: 1, 3
    assert_eq!(nfa.start, NFAState(4));
    let mut accepts = nfa.accepts.clone();
    accepts.sort();
    assert_eq!(accepts, vec![NFAState(1), NFAState(3)]);
    assert_eq!(nfa.transitions.len(), 4);
    let mut from_start = nfa.next_states(NFAState(4), None);
    from_start.sort();
    assert_eq!(from_start, vec![NFAState(0), NFAState(2)]);
    assert_eq!(nfa.next_states(NFAState(0), Some('a')), vec![NFAState(1)]);
    assert_eq!(nfa.next_states(NFAState(2), Some('b')), vec![NFAState(3)]);
}

#[test]
fn from_concat_node() {
    let nfa = NondeterministicFiniteAutomaton::from_node(Node::Concat(
        Box::new(Node::Character('a')),
        Box::new(Node::Character('b')),
    ));

    // -> 0 --a--> 1 --e--> 2 --b--> 3
    // accept: 3
    assert_eq!(nfa.start, NFAState(0));
    assert_eq!(nfa.accepts, vec![NFAState(3)]);
    assert_eq!(nfa.transitions.len(), 3);
    assert_eq!(nfa.next_states(NFAState(0), Some('a')), vec![NFAState(1)]);
    assert_eq!(nfa.next_states(NFAState(1), None), vec![NFAState(2)]);
    assert_eq!(nfa.next_states(NFAState(2), Some('b')), vec![NFAState(3)]);
}
