use dfa_regex::lexer::Lexer;
use dfa_regex::parser::{Node, Parser};

#[test]
fn expression() {
    let mut parser = Parser::new(Lexer::new(r"a|(bc)*"));
    assert_eq!(
        parser.expression(),
        Ok(Node::Union(
            Box::new(Node::Character('a')),
            Box::new(Node::Star(Box::new(Node::Concat(
                Box::new(Node::Character('b')),
                Box::new(Node::Character('c'))
            ))))
        ))
    );
}

#[test]
fn expression2() {
    let mut parser = Parser::new(Lexer::new(r"a|"));
    assert_eq!(
        parser.expression(),
        Ok(Node::Union(
            Box::new(Node::Character('a')),
            Box::new(Node::Empty)
        ))
    );
}

#[test]
fn fail() {
    let mut parser1 = Parser::new(Lexer::new(r"a("));
    let mut parser2 = Parser::new(Lexer::new(r"a)"));
    assert!(parser1.expression().is_err());
    assert!(parser2.expression().is_err());
}
