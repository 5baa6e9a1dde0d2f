use dfa_regex::automaton::dfa::{epsilon_closure, Context, DeterministicFiniteAutomaton};
use dfa_regex::automaton::nfa::{NFAState, NondeterministicFiniteAutomaton};
use dfa_regex::lexer::Token;
use dfa_regex::parser::{error_msg, Node};
use dfa_regex::Regex;

#[test]
fn union_of_two_literals() {
    let regex = Regex::new(r"a|b").unwrap();
    assert!(regex.matches("a"));
    assert!(regex.matches("b"));
    assert!(!regex.matches("ab"));
}

#[test]
fn starred_group() {
    let regex = Regex::new(r"(ab)*").unwrap();
    assert!(regex.matches(""));
    assert!(regex.matches("ab"));
    assert!(regex.matches("abab"));
    assert!(!regex.matches("aba"));
}

#[test]
fn escaped_star_is_literal() {
    let regex = Regex::new(r"a\*").unwrap();
    assert!(regex.matches("a*"));
    assert!(!regex.matches("aa"));
    assert!(!regex.matches("a"));
}

#[test]
fn one_or_more_repetitions() {
    let regex = Regex::new(r"(ab|ba)(ab|ba)*").unwrap();
    assert!(regex.matches("abab"));
    assert!(regex.matches("abba"));
    assert!(!regex.matches("aba"));
}

#[test]
fn empty_pattern_matches_empty_input() {
    let regex = Regex::new(r"").unwrap();
    assert!(regex.matches(""));
    assert!(!regex.matches("a"));
}

#[test]
fn malformed_pattern_reports_expected_and_found() {
    let err = Regex::new(r"(ab").unwrap_err();
    assert_eq!(err, "Expected one of [')'], found 'EOF'".to_string());
    let err = Regex::new(r"a)b").unwrap_err();
    assert_eq!(err, "Expected one of ['EOF'], found ')'".to_string());
}

#[test]
fn error_message_lists_every_expected_token() {
    let msg = error_msg(
        &vec![Token::LeftParen, Token::Character('_')],
        Token::StarOperator,
    );
    assert_eq!(msg, "Expected one of ['(', 'Character'], found '*'".to_string());
    let msg = error_msg(&vec![Token::RightParen], Token::Character('x'));
    assert_eq!(msg, "Expected one of [')'], found 'x'".to_string());
}

#[test]
fn closure_is_idempotent_on_a_cycle() {
    // 0 --e--> 1 --e--> 2 --e--> 0, a cycle closed by construction
    let nfa = NondeterministicFiniteAutomaton::new(NFAState(0), vec![NFAState(2)])
        .add_empty_transition(NFAState(0), NFAState(1))
        .add_empty_transition(NFAState(1), NFAState(2))
        .add_empty_transition(NFAState(2), NFAState(0));
    let once = epsilon_closure(&nfa, &vec![NFAState(0)]);
    let mut first = once.clone();
    first.sort();
    assert_eq!(first, vec![NFAState(0), NFAState(1), NFAState(2)]);
    let mut twice = epsilon_closure(&nfa, &once);
    twice.sort();
    assert_eq!(first, twice);
}

#[test]
fn state_identity_ignores_order_and_duplicates() {
    let mut context = Context::new();
    let id = context.get_state(&vec![NFAState(0), NFAState(0), NFAState(1)]);
    assert_eq!(context.get_state(&vec![NFAState(1), NFAState(0)]), id);
    assert_eq!(
        context.get_state(&vec![NFAState(0), NFAState(1), NFAState(1)]),
        id
    );
    let next = context.get_state(&vec![NFAState(2)]);
    assert_ne!(next, id);
}

#[test]
fn determinization_merges_parallel_edges() {
    // two 'a' edges out of one state collapse into one DFA transition
    let dfa = DeterministicFiniteAutomaton::from_nfa(
        NondeterministicFiniteAutomaton::new(NFAState(0), vec![NFAState(1), NFAState(2)])
            .add_transition(NFAState(0), 'a', NFAState(1))
            .add_transition(NFAState(0), 'a', NFAState(2)),
    );
    for i in 0..dfa.transitions.len() {
        for j in 0..dfa.transitions.len() {
            if i != j {
                let a = dfa.transitions[i];
                let b = dfa.transitions[j];
                assert!(!(a.0 == b.0 && a.1 == b.1));
            }
        }
    }
    assert_eq!(dfa.transitions.len(), 1);
}

#[test]
fn every_state_participates_in_a_transition() {
    // star over a union: six states, each on at least one edge
    let nfa = NondeterministicFiniteAutomaton::from_node(Node::Star(Box::new(Node::Union(
        Box::new(Node::Character('a')),
        Box::new(Node::Character('b')),
    ))));
    for id in 0..6u32 {
        let state = NFAState(id);
        let mut used = false;
        for e in &nfa.transitions {
            if e.0 == state || e.2 == state {
                used = true;
            }
        }
        assert!(used);
    }
}
