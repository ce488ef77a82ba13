use vstd::prelude::*;

use crate::lexer::{converts, converts_all, converts_ok, lex, lexed, tokens_of, LexError};
use crate::parser::{parse_at, parse_tokens, reports, ParseError};
use crate::laws::wf;
use crate::schema::Value;
use crate::token::Token;

verus! {

/// Why a document has no schema.
#[derive(Debug)]
pub enum DescribeError {
    /// The bytes do not lex into grammar tokens.
    Lexical(LexError),
    /// The tokens do not form a value.
    Grammar(ParseError),
}

/// Whether `r` is what parsing the token sequence `ts` gives.
pub open spec fn describes(ts: Seq<Token>, r: Result<Value, DescribeError>) -> bool {
    match parse_at(ts, 0) {
        Ok((s, _)) => r matches Ok(v) && v@ == s,
        Err(f) => r matches Err(DescribeError::Grammar(e)) && reports(e, f, ts),
    }
}

/// The schema of the JSON document in `input`.
pub fn describe(input: &Vec<u8>) -> (r: Result<Value, DescribeError>)
    ensures
        (forall|i: int| 0 <= i < lexed(input@).len() ==> converts_ok(#[trigger] lexed(input@)[i]))
            ==> exists|ts: Seq<Token>| converts_all(lexed(input@), ts) && describes(ts, r),
        !(forall|i: int| 0 <= i < lexed(input@).len() ==> converts_ok(#[trigger] lexed(input@)[i]))
            ==> (r matches Err(DescribeError::Lexical(e)) && exists|i: int|
            0 <= i < lexed(input@).len() && converts(#[trigger] lexed(input@)[i], Err(e))
                && forall|k: int| 0 <= k < i ==> converts_ok(#[trigger] lexed(input@)[k])),
        r matches Ok(v) ==> wf(v@),
{
    let raw = lex(input);
    match tokens_of(raw) {
        Err(e) => Err(DescribeError::Lexical(e)),
        Ok(ts) => {
            let ghost tv = ts@;
            let r = match parse_tokens(ts) {
                Ok(v) => Ok(v),
                Err(e) => Err(DescribeError::Grammar(e)),
            };
            assert(converts_all(lexed(input@), tv) && describes(tv, r));
            r
        },
    }
}

} // verus!
