use vstd::prelude::*;

use crate::lexer::{spec_scan, Lexer, Token};

verus! {

/// A parsed expression tree: the five shapes the grammar can produce.
#[derive(Debug, PartialEq, Eq, Hash)]
pub enum Node {
    Character(char),
    Empty,
    Star(Box<Node>),
    Union(Box<Node>, Box<Node>),
    Concat(Box<Node>, Box<Node>),
}

/// How many fresh automaton states Thompson's construction takes for this
/// tree: two per leaf, one more for each star and each union.
pub open spec fn node_states(n: Node) -> int
    decreases n,
{
    match n {
        Node::Character(_) => 2,
        Node::Empty => 2,
        Node::Star(c) => node_states(*c) + 1,
        Node::Union(a, b) => node_states(*a) + node_states(*b) + 1,
        Node::Concat(a, b) => node_states(*a) + node_states(*b),
    }
}

/// The text a token shows as in an error message.
pub open spec fn token_display(t: Token) -> Seq<char> {
    match t {
        Token::Character(_) => "Character"@,
        Token::UnionOperator => "|"@,
        Token::StarOperator => "*"@,
        Token::LeftParen => "("@,
        Token::RightParen => ")"@,
        Token::EndOfFile => "EOF"@,
    }
}

/// The text the offending token shows as: a literal shows its character,
/// anything else its usual display text.
pub open spec fn actual_display(t: Token) -> Seq<char> {
    match t {
        Token::Character(c) => seq![c],
        _ => token_display(t),
    }
}

pub open spec fn quoted(s: Seq<char>) -> Seq<char> {
    seq!['\''] + s + seq!['\'']
}

/// The quoted display texts of the expected tokens, joined by ", ".
pub open spec fn expected_list(ts: Seq<Token>) -> Seq<char>
    decreases ts.len(),
{
    if ts.len() <= 0 {
        Seq::empty()
    } else if ts.len() == 1 {
        quoted(token_display(ts[0]))
    } else {
        expected_list(ts.drop_last()) + ", "@ + quoted(token_display(ts.last()))
    }
}

/// The full message a failed parse reports.
pub open spec fn error_msg_spec(expected: Seq<Token>, actual: Token) -> Seq<char> {
    "Expected one of ["@ + expected_list(expected) + "], found "@ + quoted(actual_display(actual))
}

/// A bound on the work the parser still has ahead of it: unread characters,
/// plus one for a pending lookahead token. Every token consumed makes it
/// strictly smaller, which is what grounds the grammar's recursion.
pub open spec fn parser_measure(look: Token, chars: Seq<char>, cur: int) -> int {
    chars.len() - cur + if look == Token::EndOfFile { 0int } else { 1int }
}

/// Does this token begin a factor?
pub open spec fn starts_factor(t: Token) -> bool {
    t == Token::LeftParen || t is Character
}

/// The grammar, one spec function per nonterminal. Each takes the lookahead
/// token, the pattern and the cursor just past that token, and gives the tree
/// the nonterminal derives together with the state after it, or `None` where
/// the input does not fit the production. The measure guards mirror the fact
/// that a recursive step only happens after a token was consumed; on inputs
/// the executable parser can reach they always hold.
///
/// factor := '(' sub_expression ')' | Character
pub open spec fn spec_factor(look: Token, chars: Seq<char>, cur: int) -> Option<(Node, Token, int)>
    decreases parser_measure(look, chars, cur), 1int,
{
    match look {
        Token::LeftParen => {
            let (l1, c1) = spec_scan(chars, cur);
            if 0 <= parser_measure(l1, chars, c1) < parser_measure(look, chars, cur) {
                match spec_sub_expression(l1, chars, c1) {
                    Some((n, l2, c2)) => {
                        if l2 == Token::RightParen {
                            let (l3, c3) = spec_scan(chars, c2);
                            Some((n, l3, c3))
                        } else {
                            None
                        }
                    }
                    None => None,
                }
            } else {
                None
            }
        }
        Token::Character(ch) => {
            let (l1, c1) = spec_scan(chars, cur);
            Some((Node::Character(ch), l1, c1))
        }
        _ => None,
    }
}

/// star := factor '*' | factor
pub open spec fn spec_star(look: Token, chars: Seq<char>, cur: int) -> Option<(Node, Token, int)>
    decreases parser_measure(look, chars, cur), 2int,
{
    match spec_factor(look, chars, cur) {
        Some((n, l1, c1)) => {
            if l1 == Token::StarOperator {
                let (l2, c2) = spec_scan(chars, c1);
                Some((Node::Star(Box::new(n)), l2, c2))
            } else {
                Some((n, l1, c1))
            }
        }
        None => None,
    }
}

/// sub_sequence := star sub_sequence | star
pub open spec fn spec_sub_sequence(look: Token, chars: Seq<char>, cur: int) -> Option<
    (Node, Token, int),
>
    decreases parser_measure(look, chars, cur), 3int,
{
    match spec_star(look, chars, cur) {
        Some((n1, l1, c1)) => {
            if starts_factor(l1) {
                if 0 <= parser_measure(l1, chars, c1) < parser_measure(look, chars, cur) {
                    match spec_sub_sequence(l1, chars, c1) {
                        Some((n2, l2, c2)) => Some(
                            (Node::Concat(Box::new(n1), Box::new(n2)), l2, c2),
                        ),
                        None => None,
                    }
                } else {
                    None
                }
            } else {
                Some((n1, l1, c1))
            }
        }
        None => None,
    }
}

/// sequence := sub_sequence | ''
pub open spec fn spec_sequence(look: Token, chars: Seq<char>, cur: int) -> Option<
    (Node, Token, int),
>
    decreases parser_measure(look, chars, cur), 4int,
{
    if starts_factor(look) {
        spec_sub_sequence(look, chars, cur)
    } else {
        Some((Node::Empty, look, cur))
    }
}

/// sub_expression := sequence '|' sub_expression | sequence
pub open spec fn spec_sub_expression(look: Token, chars: Seq<char>, cur: int) -> Option<
    (Node, Token, int),
>
    decreases parser_measure(look, chars, cur), 5int,
{
    match spec_sequence(look, chars, cur) {
        Some((n1, l1, c1)) => {
            if l1 == Token::UnionOperator {
                let (l2, c2) = spec_scan(chars, c1);
                if 0 <= parser_measure(l2, chars, c2) < parser_measure(look, chars, cur) {
                    match spec_sub_expression(l2, chars, c2) {
                        Some((n2, l3, c3)) => Some(
                            (Node::Union(Box::new(n1), Box::new(n2)), l3, c3),
                        ),
                        None => None,
                    }
                } else {
                    None
                }
            } else {
                Some((n1, l1, c1))
            }
        }
        None => None,
    }
}

/// expression := sub_expression EOF
pub open spec fn spec_expression(look: Token, chars: Seq<char>, cur: int) -> Option<Node> {
    match spec_sub_expression(look, chars, cur) {
        Some((n, l, _c)) => if l == Token::EndOfFile {
            Some(n)
        } else {
            None
        },
        None => None,
    }
}

/// The tree a whole pattern string parses to, or `None` where it is
/// malformed.
pub open spec fn spec_parse_pattern(chars: Seq<char>) -> Option<Node> {
    let (l0, c0) = spec_scan(chars, 0);
    spec_expression(l0, chars, c0)
}

/// Relies on String::push: appends exactly one character at the end.
#[verifier::external_body]
fn push_char(s: &mut String, c: char)
    ensures
        final(s)@ == old(s)@.push(c),
{
    s.push(c);
}

fn token_text(t: Token) -> (r: &'static str)
    ensures
        r@ == token_display(t),
{
    match t {
        Token::Character(_) => "Character",
        Token::UnionOperator => "|",
        Token::StarOperator => "*",
        Token::LeftParen => "(",
        Token::RightParen => ")",
        Token::EndOfFile => "EOF",
    }
}

/// Builds the message a failed parse reports: the expected token set and the
/// token actually found.
pub fn error_msg(expected: &Vec<Token>, actual: Token) -> (r: String)
    ensures
        r@ == error_msg_spec(expected@, actual),
{
    let mut s = String::from_str("Expected one of [");
    let mut i: usize = 0;
    while i < expected.len()
        invariant
            i <= expected@.len(),
            s@ == "Expected one of ["@ + expected_list(expected@.take(i as int)),
        decreases expected@.len() - i,
    {
        if i > 0 {
            s.append(", ");
        }
        push_char(&mut s, '\'');
        s.append(token_text(expected[i]));
        push_char(&mut s, '\'');
        proof {
            let taken = expected@.take(i + 1);
            assert(taken.drop_last() =~= expected@.take(i as int));
            assert(taken.last() == expected@[i as int]);
            assert(s@ =~= "Expected one of ["@ + expected_list(taken));
        }
        i = i + 1;
    }
    proof {
        assert(expected@.take(expected@.len() as int) =~= expected@);
    }
    s.append("], found ");
    push_char(&mut s, '\'');
    match actual {
        Token::Character(c) => push_char(&mut s, c),
        _ => s.append(token_text(actual)),
    }
    push_char(&mut s, '\'');
    proof {
        assert(s@ =~= error_msg_spec(expected@, actual));
    }
    s
}

/// Recursive-descent parser over the token stream, one lookahead token deep.
pub struct Parser {
    lexer: Lexer,
    look: Token,
}

impl Parser {
    pub closed spec fn text(self) -> Seq<char> {
        self.lexer.text()
    }

    pub closed spec fn cursor(self) -> int {
        self.lexer.cursor()
    }

    pub closed spec fn lookahead(self) -> Token {
        self.look
    }

    pub closed spec fn wf(self) -> bool {
        &&& self.lexer.wf()
        &&& (self.look == Token::EndOfFile ==> self.cursor() == self.text().len())
    }

    pub closed spec fn measure(self) -> int {
        parser_measure(self.look, self.text(), self.cursor())
    }

    pub proof fn lemma_measure_nonneg(self)
        requires
            self.wf(),
        ensures
            self.measure() >= 0,
    {
    }

    pub fn new(lexer: Lexer) -> (r: Parser)
        requires
            lexer.wf(),
        ensures
            r.wf(),
            r.text() == lexer.text(),
            (r.lookahead(), r.cursor()) == spec_scan(lexer.text(), lexer.cursor()),
            r.measure() <= lexer.text().len() + 1,
    {
        let mut lx = lexer;
        let look = lx.scan();
        Parser { lexer: lx, look }
    }

    /// Consumes the lookahead token when it is the given one; otherwise
    /// reports what was expected and what stood there, leaving the state as
    /// it was.
    fn match_next(&mut self, token: Token) -> (r: Result<(), String>)
        requires
            old(self).wf(),
        ensures
            final(self).wf(),
            final(self).text() == old(self).text(),
            final(self).measure() <= old(self).measure(),
            r is Ok <==> old(self).lookahead() == token,
            r is Ok ==> (final(self).lookahead(), final(self).cursor()) == spec_scan(
                old(self).text(),
                old(self).cursor(),
            ),
            r is Ok && old(self).lookahead() != Token::EndOfFile ==> final(self).measure() < old(
                self,
            ).measure(),
            r is Err ==> *final(self) == *old(self) && r->Err_0@ == error_msg_spec(
                seq![token],
                old(self).lookahead(),
            ),
    {
        if self.look == token {
            let next = self.lexer.scan();
            self.look = next;
            Ok(())
        } else {
            let expected = vec![token];
            proof {
                assert(expected@ =~= seq![token]);
            }
            Err(error_msg(&expected, self.look))
        }
    }

    /// Parses one whole expression: everything up to and including the end
    /// marker. Succeeds exactly where the grammar derives a tree, and then
    /// returns that tree.
    pub fn parse(&mut self) -> (r: Result<Node, String>)
        requires
            old(self).wf(),
        ensures
            final(self).wf(),
            final(self).text() == old(self).text(),
            final(self).measure() <= old(self).measure(),
            match spec_expression(old(self).lookahead(), old(self).text(), old(self).cursor()) {
                Some(n) => r is Ok && r->Ok_0 == n,
                None => r is Err,
            },
            r is Ok ==> node_states(r->Ok_0) <= 3 * (old(self).measure() - final(self).measure())
                + 2,
    {
        self.expression()
    }

    /// expression := sub_expression EOF
    pub fn expression(&mut self) -> (r: Result<Node, String>)
        requires
            old(self).wf(),
        ensures
            final(self).wf(),
            final(self).text() == old(self).text(),
            final(self).measure() <= old(self).measure(),
            match spec_expression(old(self).lookahead(), old(self).text(), old(self).cursor()) {
                Some(n) => r is Ok && r->Ok_0 == n,
                None => r is Err,
            },
            r is Ok ==> node_states(r->Ok_0) <= 3 * (old(self).measure() - final(self).measure())
                + 2,
    {
        let expression = self.sub_expression();
        match self.match_next(Token::EndOfFile) {
            Err(e) => return Err(e),
            Ok(()) => {}
        }
        expression
    }

    /// sub_expression := sequence '|' sub_expression | sequence
    fn sub_expression(&mut self) -> (r: Result<Node, String>)
        requires
            old(self).wf(),
        ensures
            final(self).wf(),
            final(self).text() == old(self).text(),
            final(self).measure() <= old(self).measure(),
            match spec_sub_expression(
                old(self).lookahead(),
                old(self).text(),
                old(self).cursor(),
            ) {
                Some((n, l, c)) => r is Ok && r->Ok_0 == n && final(self).lookahead() == l
                    && final(self).cursor() == c,
                None => r is Err,
            },
            r is Ok ==> node_states(r->Ok_0) <= 3 * (old(self).measure() - final(self).measure())
                + 2,
        decreases self.measure(), 5int,
    {
        let sequence = self.sequence();
        if self.look == Token::UnionOperator {
            match self.match_next(Token::UnionOperator) {
                Err(e) => return Err(e),
                Ok(()) => {}
            }
            let n1 = match sequence {
                Ok(n) => n,
                Err(e) => return Err(e),
            };
            let n2 = match self.sub_expression() {
                Ok(n) => n,
                Err(e) => return Err(e),
            };
            Ok(Node::Union(Box::new(n1), Box::new(n2)))
        } else {
            sequence
        }
    }

    /// sequence := sub_sequence | ''
    fn sequence(&mut self) -> (r: Result<Node, String>)
        requires
            old(self).wf(),
        ensures
            final(self).wf(),
            final(self).text() == old(self).text(),
            final(self).measure() <= old(self).measure(),
            match spec_sequence(old(self).lookahead(), old(self).text(), old(self).cursor()) {
                Some((n, l, c)) => r is Ok && r->Ok_0 == n && final(self).lookahead() == l
                    && final(self).cursor() == c,
                None => r is Err,
            },
            r is Ok ==> node_states(r->Ok_0) <= 3 * (old(self).measure() - final(self).measure())
                + 2,
        decreases self.measure(), 4int,
    {
        if token_starts_factor(self.look) {
            self.sub_sequence()
        } else {
            Ok(Node::Empty)
        }
    }

    /// sub_sequence := star sub_sequence | star
    fn sub_sequence(&mut self) -> (r: Result<Node, String>)
        requires
            old(self).wf(),
        ensures
            final(self).wf(),
            final(self).text() == old(self).text(),
            final(self).measure() <= old(self).measure(),
            match spec_sub_sequence(old(self).lookahead(), old(self).text(), old(self).cursor()) {
                Some((n, l, c)) => r is Ok && r->Ok_0 == n && final(self).lookahead() == l
                    && final(self).cursor() == c,
                None => r is Err,
            },
            r is Ok ==> final(self).measure() < old(self).measure() && node_states(r->Ok_0) <= 3
                * (old(self).measure() - final(self).measure()) - 1,
        decreases self.measure(), 3int,
    {
        let star = self.star();
        if token_starts_factor(self.look) {
            let n1 = match star {
                Ok(n) => n,
                Err(e) => return Err(e),
            };
            let n2 = match self.sub_sequence() {
                Ok(n) => n,
                Err(e) => return Err(e),
            };
            Ok(Node::Concat(Box::new(n1), Box::new(n2)))
        } else {
            star
        }
    }

    /// star := factor '*' | factor
    fn star(&mut self) -> (r: Result<Node, String>)
        requires
            old(self).wf(),
        ensures
            final(self).wf(),
            final(self).text() == old(self).text(),
            final(self).measure() <= old(self).measure(),
            match spec_star(old(self).lookahead(), old(self).text(), old(self).cursor()) {
                Some((n, l, c)) => r is Ok && r->Ok_0 == n && final(self).lookahead() == l
                    && final(self).cursor() == c,
                None => r is Err,
            },
            r is Ok ==> final(self).measure() < old(self).measure() && node_states(r->Ok_0) <= 3
                * (old(self).measure() - final(self).measure()) - 1,
        decreases self.measure(), 2int,
    {
        let factor = self.factor();
        if self.look == Token::StarOperator {
            match self.match_next(Token::StarOperator) {
                Err(e) => return Err(e),
                Ok(()) => {}
            }
            match factor {
                Ok(n) => Ok(Node::Star(Box::new(n))),
                Err(e) => Err(e),
            }
        } else {
            factor
        }
    }

    /// factor := '(' sub_expression ')' | Character
    fn factor(&mut self) -> (r: Result<Node, String>)
        requires
            old(self).wf(),
        ensures
            final(self).wf(),
            final(self).text() == old(self).text(),
            final(self).measure() <= old(self).measure(),
            match spec_factor(old(self).lookahead(), old(self).text(), old(self).cursor()) {
                Some((n, l, c)) => r is Ok && r->Ok_0 == n && final(self).lookahead() == l
                    && final(self).cursor() == c,
                None => r is Err,
            },
            r is Ok ==> final(self).measure() < old(self).measure() && node_states(r->Ok_0) <= 3
                * (old(self).measure() - final(self).measure()) - 1,
        decreases self.measure(), 1int,
    {
        match self.look {
            Token::LeftParen => {
                match self.match_next(Token::LeftParen) {
                    Err(e) => return Err(e),
                    Ok(()) => {}
                }
                let node = self.sub_expression();
                match self.match_next(Token::RightParen) {
                    Err(e) => return Err(e),
                    Ok(()) => {}
                }
                node
            }
            Token::Character(ch) => {
                let node = Node::Character(ch);
                match self.match_next(Token::Character(ch)) {
                    Err(e) => return Err(e),
                    Ok(()) => {}
                }
                Ok(node)
            }
            other => {
                let expected = vec![Token::LeftParen, Token::Character('_')];
                Err(error_msg(&expected, other))
            }
        }
    }
}

fn token_starts_factor(t: Token) -> (r: bool)
    ensures
        r == starts_factor(t),
{
    match t {
        Token::LeftParen => true,
        Token::Character(_) => true,
        _ => false,
    }
}

} // verus!
