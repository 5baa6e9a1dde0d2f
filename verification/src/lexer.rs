use vstd::prelude::*;

verus! {

/// One token of the restricted regular-expression syntax: a literal
/// character, one of the three operators, a parenthesis, or the end marker.
#[derive(Clone, Copy, Debug, PartialEq, Eq, Structural)]
pub enum Token {
    Character(char),
    UnionOperator,
    StarOperator,
    LeftParen,
    RightParen,
    EndOfFile,
}

/// What `Lexer::scan` produces at position `pos` of `chars`, together with
/// the position of the following token.
///
/// A backslash makes the next character a literal, whatever it is. The one
/// degenerate input, a backslash as the very last character, is mapped to the
/// end marker here; `scan` itself excludes it by `scan_ok`.
pub open spec fn spec_scan(chars: Seq<char>, pos: int) -> (Token, int) {
    if pos < 0 || pos >= chars.len() {
        (Token::EndOfFile, pos)
    } else if chars[pos] == '\\' {
        if pos + 1 < chars.len() {
            (Token::Character(chars[pos + 1]), pos + 2)
        } else {
            (Token::EndOfFile, pos)
        }
    } else if chars[pos] == '|' {
        (Token::UnionOperator, pos + 1)
    } else if chars[pos] == '(' {
        (Token::LeftParen, pos + 1)
    } else if chars[pos] == ')' {
        (Token::RightParen, pos + 1)
    } else if chars[pos] == '*' {
        (Token::StarOperator, pos + 1)
    } else {
        (Token::Character(chars[pos]), pos + 1)
    }
}

/// No scan starting at `pos` or later ever meets a backslash that has no
/// character after it (the one input on which a scan has no token to give).
pub open spec fn scan_ok(chars: Seq<char>, pos: int) -> bool
    decreases chars.len() - pos,
{
    if pos >= chars.len() {
        true
    } else if chars[pos] == '\\' {
        pos + 1 < chars.len() && scan_ok(chars, pos + 2)
    } else {
        scan_ok(chars, pos + 1)
    }
}

/// Turns a pattern string into tokens, one `scan` at a time.
pub struct Lexer {
    chars: Vec<char>,
    pos: usize,
}

impl Lexer {
    /// The pattern, one `char` per symbol.
    pub closed spec fn text(self) -> Seq<char> {
        self.chars@
    }

    /// Index of the next token's first character.
    pub closed spec fn cursor(self) -> int {
        self.pos as int
    }

    pub open spec fn wf(self) -> bool {
        0 <= self.cursor() <= self.text().len() && scan_ok(self.text(), self.cursor())
    }

    pub fn new(string: &str) -> (r: Lexer)
        ensures
            r.text() == string@,
            r.cursor() == 0,
    {
        let n = string.unicode_len();
        let mut chars: Vec<char> = Vec::new();
        let mut i: usize = 0;
        while i < n
            invariant
                n == string@.len(),
                i <= n,
                chars@ == string@.take(i as int),
            decreases n - i,
        {
            chars.push(string.get_char(i));
            proof {
                assert(chars@ =~= string@.take(i + 1));
            }
            i = i + 1;
        }
        proof {
            assert(chars@ =~= string@);
        }
        Lexer { chars, pos: 0 }
    }

    /// Reads one token and moves past it; at the end of the input it returns
    /// the end marker and stays put.
    pub fn scan(&mut self) -> (t: Token)
        requires
            old(self).wf(),
        ensures
            final(self).wf(),
            final(self).text() == old(self).text(),
            (t, final(self).cursor()) == spec_scan(old(self).text(), old(self).cursor()),
            old(self).cursor() <= final(self).cursor() <= final(self).text().len(),
            t == Token::EndOfFile <==> final(self).cursor() == old(self).cursor(),
    {
        if self.pos >= self.chars.len() {
            return Token::EndOfFile;
        }
        let c = self.chars[self.pos];
        if c == '\\' {
            let lit = self.chars[self.pos + 1];
            self.pos = self.pos + 2;
            Token::Character(lit)
        } else {
            self.pos = self.pos + 1;
            if c == '|' {
                Token::UnionOperator
            } else if c == '(' {
                Token::LeftParen
            } else if c == ')' {
                Token::RightParen
            } else if c == '*' {
                Token::StarOperator
            } else {
                Token::Character(c)
            }
        }
    }
}

} // verus!
