use vstd::prelude::*;

verus! {

/// A grammar token. String and number literals carry their exact text, quotes included for
/// strings; every other token is a bare marker.
#[derive(Debug)]
pub enum Token {
    CurlyOpen,
    CurlyClose,
    BracketOpen,
    BracketClose,
    Colon,
    Comma,
    String(String),
    Boolean,
    Number(String),
    Null,
}

/// Whether two tokens are of the same kind and carry the same text.
pub open spec fn same_token(a: Token, b: Token) -> bool {
    match (a, b) {
        (Token::String(x), Token::String(y)) => x@ == y@,
        (Token::Number(x), Token::Number(y)) => x@ == y@,
        (Token::CurlyOpen, Token::CurlyOpen) => true,
        (Token::CurlyClose, Token::CurlyClose) => true,
        (Token::BracketOpen, Token::BracketOpen) => true,
        (Token::BracketClose, Token::BracketClose) => true,
        (Token::Colon, Token::Colon) => true,
        (Token::Comma, Token::Comma) => true,
        (Token::Boolean, Token::Boolean) => true,
        (Token::Null, Token::Null) => true,
        _ => false,
    }
}

impl Token {
    /// A copy of this token.
    pub fn copy(&self) -> (r: Token)
        ensures
            r == *self,
    {
        match self {
            Token::CurlyOpen => Token::CurlyOpen,
            Token::CurlyClose => Token::CurlyClose,
            Token::BracketOpen => Token::BracketOpen,
            Token::BracketClose => Token::BracketClose,
            Token::Colon => Token::Colon,
            Token::Comma => Token::Comma,
            Token::String(s) => Token::String(s.clone()),
            Token::Boolean => Token::Boolean,
            Token::Number(s) => Token::Number(s.clone()),
            Token::Null => Token::Null,
        }
    }

    /// Whether this token is of the same kind as `other` and carries the same text.
    pub fn same_as(&self, other: &Token) -> (r: bool)
        ensures
            r == same_token(*self, *other),
    {
        match (self, other) {
            (Token::String(x), Token::String(y)) => *x == *y,
            (Token::Number(x), Token::Number(y)) => *x == *y,
            (Token::CurlyOpen, Token::CurlyOpen) => true,
            (Token::CurlyClose, Token::CurlyClose) => true,
            (Token::BracketOpen, Token::BracketOpen) => true,
            (Token::BracketClose, Token::BracketClose) => true,
            (Token::Colon, Token::Colon) => true,
            (Token::Comma, Token::Comma) => true,
            (Token::Boolean, Token::Boolean) => true,
            (Token::Null, Token::Null) => true,
            _ => false,
        }
    }
}

} // verus!
