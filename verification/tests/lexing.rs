use dfa_regex::lexer::{Lexer, Token};

#[test]
fn scan() {
    let mut lexer = Lexer::new(r"a|(bc)*");
    assert_eq!(lexer.scan(), Token::Character('a'));
    assert_eq!(lexer.scan(), Token::UnionOperator);
    assert_eq!(lexer.scan(), Token::LeftParen);
    assert_eq!(lexer.scan(), Token::Character('b'));
    assert_eq!(lexer.scan(), Token::Character('c'));
    assert_eq!(lexer.scan(), Token::RightParen);
    assert_eq!(lexer.scan(), Token::StarOperator);
    assert_eq!(lexer.scan(), Token::EndOfFile);
}

#[test]
fn scan_with_escape() {
    let mut lexer = Lexer::new(r"a|\|\\(\)");
    assert_eq!(lexer.scan(), Token::Character('a'));
    assert_eq!(lexer.scan(), Token::UnionOperator);
    assert_eq!(lexer.scan(), Token::Character('|'));
    assert_eq!(lexer.scan(), Token::Character('\\'));
    assert_eq!(lexer.scan(), Token::LeftParen);
    assert_eq!(lexer.scan(), Token::Character(')'));
    assert_eq!(lexer.scan(), Token::EndOfFile);
}

#[test]
fn with_empty() {
    let mut lexer = Lexer::new(r#""#);
    assert_eq!(lexer.scan(), Token::EndOfFile);
}
