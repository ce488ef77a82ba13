use vstd::prelude::*;
use vstd::utf8::{decode_utf8, valid_utf8};

use crate::token::Token;

verus! {

/// json_tools::TokenType, the lexer's token kinds; its variants are read as declared.
#[verifier::external_type_specification]
pub struct ExTokenType(json_tools::TokenType);

/// json_tools::Span, a byte range; needed because `Buffer` holds one.
#[verifier::external_type_specification]
pub struct ExSpan(json_tools::Span);

/// json_tools::Buffer, a token's text: its bytes, or a span of the input.
#[verifier::external_type_specification]
pub struct ExBuffer(json_tools::Buffer);

/// The tokens that the lexer reads from a byte sequence, each as its kind and its text.
pub uninterp spec fn lexed(input: Seq<u8>) -> Seq<(json_tools::TokenType, json_tools::Buffer)>;

/// Relies on json_tools::Lexer: reading bytes into tokens, a function of the bytes alone.
#[verifier::external_body]
pub(crate) fn lex(input: &Vec<u8>) -> (r: Vec<(json_tools::TokenType, json_tools::Buffer)>)
    ensures
        r@ == lexed(input@),
{
    let lexer = json_tools::Lexer::new(input.iter().copied(), json_tools::BufferType::Bytes(8));
    lexer.map(|t| (t.kind, t.buf)).collect()
}

/// Relies on String::from_utf8: it succeeds exactly on valid UTF-8, with the decoded text.
#[verifier::external_body]
fn utf8_text(bytes: Vec<u8>) -> (r: Option<String>)
    ensures
        r is Some <==> valid_utf8(bytes@),
        r matches Some(s) ==> s@ == decode_utf8(bytes@),
{
    String::from_utf8(bytes).ok()
}

/// A lexical error.
#[derive(Debug)]
pub enum LexError {
    /// The lexer met bytes that form no token.
    InvalidToken,
    /// A literal's bytes are not valid UTF-8.
    InvalidUtf8,
    /// A literal came without its text.
    MissingText,
}

/// Whether `r` is the grammar token for the lexer token `t`, or the error it gives.
pub open spec fn converts(t: (json_tools::TokenType, json_tools::Buffer), r: Result<Token, LexError>) -> bool {
    match t.0 {
        json_tools::TokenType::CurlyOpen => r == Ok::<Token, LexError>(Token::CurlyOpen),
        json_tools::TokenType::CurlyClose => r == Ok::<Token, LexError>(Token::CurlyClose),
        json_tools::TokenType::BracketOpen => r == Ok::<Token, LexError>(Token::BracketOpen),
        json_tools::TokenType::BracketClose => r == Ok::<Token, LexError>(Token::BracketClose),
        json_tools::TokenType::Colon => r == Ok::<Token, LexError>(Token::Colon),
        json_tools::TokenType::Comma => r == Ok::<Token, LexError>(Token::Comma),
        json_tools::TokenType::BooleanTrue | json_tools::TokenType::BooleanFalse => r == Ok::<
            Token,
            LexError,
        >(Token::Boolean),
        json_tools::TokenType::Null => r == Ok::<Token, LexError>(Token::Null),
        json_tools::TokenType::Invalid => r == Err::<Token, LexError>(LexError::InvalidToken),
        json_tools::TokenType::String | json_tools::TokenType::Number => match t.1 {
            json_tools::Buffer::MultiByte(b) => if valid_utf8(b@) {
                match r {
                    Ok(Token::String(s)) => t.0 is String && s@ == decode_utf8(b@),
                    Ok(Token::Number(s)) => t.0 is Number && s@ == decode_utf8(b@),
                    _ => false,
                }
            } else {
                r == Err::<Token, LexError>(LexError::InvalidUtf8)
            },
            json_tools::Buffer::Span(_) => r == Err::<Token, LexError>(LexError::MissingText),
        },
    }
}

/// Whether the lexer token `t` has a grammar token.
pub open spec fn converts_ok(t: (json_tools::TokenType, json_tools::Buffer)) -> bool {
    match t.0 {
        json_tools::TokenType::Invalid => false,
        json_tools::TokenType::String | json_tools::TokenType::Number => match t.1 {
            json_tools::Buffer::MultiByte(b) => valid_utf8(b@),
            json_tools::Buffer::Span(_) => false,
        },
        _ => true,
    }
}

impl Token {
    /// The grammar token for a lexer token.
    pub fn from_json_token(token: (json_tools::TokenType, json_tools::Buffer)) -> (r: Result<Token, LexError>)
        ensures
            converts(token, r),
            r is Ok <==> converts_ok(token),
    {
        match token.0 {
            json_tools::TokenType::CurlyOpen => Ok(Token::CurlyOpen),
            json_tools::TokenType::CurlyClose => Ok(Token::CurlyClose),
            json_tools::TokenType::BracketOpen => Ok(Token::BracketOpen),
            json_tools::TokenType::BracketClose => Ok(Token::BracketClose),
            json_tools::TokenType::Colon => Ok(Token::Colon),
            json_tools::TokenType::Comma => Ok(Token::Comma),
            json_tools::TokenType::BooleanTrue | json_tools::TokenType::BooleanFalse => Ok(
                Token::Boolean,
            ),
            json_tools::TokenType::Null => Ok(Token::Null),
            json_tools::TokenType::Invalid => Err(LexError::InvalidToken),
            json_tools::TokenType::String => match token.1 {
                json_tools::Buffer::MultiByte(bytes) => match utf8_text(bytes) {
                    Some(s) => Ok(Token::String(s)),
                    None => Err(LexError::InvalidUtf8),
                },
                json_tools::Buffer::Span(_) => Err(LexError::MissingText),
            },
            json_tools::TokenType::Number => match token.1 {
                json_tools::Buffer::MultiByte(bytes) => match utf8_text(bytes) {
                    Some(s) => Ok(Token::Number(s)),
                    None => Err(LexError::InvalidUtf8),
                },
                json_tools::Buffer::Span(_) => Err(LexError::MissingText),
            },
        }
    }
}

/// Whether `ts` holds, one for one, the grammar tokens of the lexer tokens `raw`.
pub open spec fn converts_all(raw: Seq<(json_tools::TokenType, json_tools::Buffer)>, ts: Seq<Token>) -> bool {
    &&& ts.len() == raw.len()
    &&& forall|i: int| 0 <= i < raw.len() ==> converts(#[trigger] raw[i], Ok(ts[i]))
}

/// The grammar tokens of a sequence of lexer tokens, or the error of the first that has none.
pub fn tokens_of(raw: Vec<(json_tools::TokenType, json_tools::Buffer)>) -> (r: Result<Vec<Token>, LexError>)
    ensures
        r is Ok <==> forall|i: int| 0 <= i < raw@.len() ==> converts_ok(#[trigger] raw@[i]),
        r matches Ok(ts) ==> converts_all(raw@, ts@),
        r matches Err(e) ==> exists|i: int|
            0 <= i < raw@.len() && converts(#[trigger] raw@[i], Err(e)) && forall|k: int|
                0 <= k < i ==> converts_ok(#[trigger] raw@[k]),
{
    let ghost all = raw@;
    let total = raw.len();
    let mut out: Vec<Token> = Vec::new();
    let mut rest = raw;
    let mut i: usize = 0;
    while rest.len() > 0
        invariant
            all == raw@,
            all.len() == total,
            i + rest@.len() == all.len(),
            forall|k: int| 0 <= k < rest@.len() ==> #[trigger] rest@[k] == all[i + k],
            out@.len() == i,
            forall|k: int| 0 <= k < i ==> converts(#[trigger] all[k], Ok(out@[k])),
            forall|k: int| 0 <= k < i ==> converts_ok(#[trigger] all[k]),
        decreases rest.len(),
    {
        let t = rest.remove(0);
        assert(t == all[i as int]);
        match Token::from_json_token(t) {
            Ok(tok) => {
                out.push(tok);
            },
            Err(e) => {
                assert(converts(all[i as int], Err(e)));
                assert(!converts_ok(all[i as int]));
                return Err(e);
            },
        }
        i += 1;
    }
    Ok(out)
}

} // verus!
