use vstd::prelude::*;

use crate::merge::{absorb, absorb_into, find_field, find_key};
use crate::schema::{alts_of, fields_of, lemma_alts_view, lemma_fields_view, starts_value, token_schema, Schema, Value};
use crate::laws::{lemma_parse_wf, wf};
use crate::token::{same_token, Token};

verus! {

/// Why a token sequence is not a value, in terms of positions.
pub enum Fault {
    /// The tokens ran out inside a value.
    End,
    /// The token at this position does not fit the grammar there.
    Unexpected(int),
    /// This key appears twice in one object literal.
    Duplicate(Seq<char>),
}

/// A grammar error.
#[derive(Debug)]
pub enum ParseError {
    /// The tokens ran out inside a value.
    UnexpectedEnd,
    /// This token does not fit the grammar where it stands.
    UnexpectedToken(Token),
    /// This key appears twice in one object literal.
    DuplicateKey(String),
}

/// Whether `e` reports the fault `f` of the token sequence `ts`.
pub open spec fn reports(e: ParseError, f: Fault, ts: Seq<Token>) -> bool {
    match (e, f) {
        (ParseError::UnexpectedEnd, Fault::End) => true,
        (ParseError::UnexpectedToken(t), Fault::Unexpected(p)) => 0 <= p < ts.len() && t == ts[p],
        (ParseError::DuplicateKey(k), Fault::Duplicate(d)) => k@ == d,
        _ => false,
    }
}

/// The name of an object key: its literal text without the enclosing quotes.
pub open spec fn key_name(text: Seq<char>) -> Seq<char> {
    text.subrange(1, text.len() - 1)
}

/// The value that starts at `pos`, with the position after it.
pub open spec fn parse_at(ts: Seq<Token>, pos: int) -> Result<(Schema, int), Fault>
    decreases ts.len() - pos, 0int,
{
    if 0 <= pos < ts.len() {
        let t = ts[pos];
        if !starts_value(t) {
            Err(Fault::Unexpected(pos))
        } else {
            match t {
                Token::CurlyOpen => parse_object_at(ts, pos + 1),
                Token::BracketOpen => parse_array_at(ts, pos + 1),
                _ => Ok((token_schema(t), pos + 1)),
            }
        }
    } else {
        Err(Fault::End)
    }
}

/// The object whose opening brace stands just before `pos`.
pub open spec fn parse_object_at(ts: Seq<Token>, pos: int) -> Result<(Schema, int), Fault>
    decreases ts.len() - pos, 2int,
{
    if 0 <= pos < ts.len() && ts[pos] is CurlyClose {
        Ok((Schema::Obj(Seq::empty()), pos + 1))
    } else {
        parse_members(ts, pos, Seq::empty())
    }
}

/// The members of an object from `pos` on, after the members `acc` already read.
pub open spec fn parse_members(
    ts: Seq<Token>,
    pos: int,
    acc: Seq<(Seq<char>, Seq<Schema>, bool)>,
) -> Result<(Schema, int), Fault>
    decreases ts.len() - pos, 1int,
{
    if 0 <= pos < ts.len() {
        match ts[pos] {
            Token::String(k) => {
                if k@.len() < 2 {
                    Err(Fault::Unexpected(pos))
                } else if find_key(acc, key_name(k@), 0) is Some {
                    Err(Fault::Duplicate(key_name(k@)))
                } else if pos + 1 >= ts.len() {
                    Err(Fault::End)
                } else if !(ts[pos + 1] is Colon) {
                    Err(Fault::Unexpected(pos + 1))
                } else {
                    match parse_at(ts, pos + 2) {
                        Err(f) => Err(f),
                        Ok((v, p)) => {
                            if p <= pos || p >= ts.len() {
                                Err(Fault::End)
                            } else {
                                let acc2 = acc.push((key_name(k@), seq![v], false));
                                match ts[p] {
                                    Token::Comma => parse_members(ts, p + 1, acc2),
                                    Token::CurlyClose => Ok((Schema::Obj(acc2), p + 1)),
                                    _ => Err(Fault::Unexpected(p)),
                                }
                            }
                        },
                    }
                }
            },
            _ => Err(Fault::Unexpected(pos)),
        }
    } else {
        Err(Fault::End)
    }
}

/// The array whose opening bracket stands just before `pos`.
pub open spec fn parse_array_at(ts: Seq<Token>, pos: int) -> Result<(Schema, int), Fault>
    decreases ts.len() - pos, 2int,
{
    if 0 <= pos < ts.len() && ts[pos] is BracketClose {
        Ok((Schema::Arr(Seq::empty(), 0, 0), pos + 1))
    } else {
        parse_elements(ts, pos, Seq::empty(), 0)
    }
}

/// The elements of an array from `pos` on, after `n` elements already read and merged into
/// the alternatives `alts`.
pub open spec fn parse_elements(ts: Seq<Token>, pos: int, alts: Seq<Schema>, n: nat) -> Result<
    (Schema, int),
    Fault,
>
    decreases ts.len() - pos, 1int,
{
    if 0 <= pos < ts.len() {
        match parse_at(ts, pos) {
            Err(f) => Err(f),
            Ok((v, p)) => {
                if p <= pos || p >= ts.len() {
                    Err(Fault::End)
                } else {
                    let alts2 = absorb(alts, v, 0);
                    match ts[p] {
                        Token::Comma => parse_elements(ts, p + 1, alts2, n + 1),
                        Token::BracketClose => Ok((Schema::Arr(alts2, n + 1, n + 1), p + 1)),
                        _ => Err(Fault::Unexpected(p)),
                    }
                }
            },
        }
    } else {
        Err(Fault::End)
    }
}

/// A cursor over a token sequence with one token of lookahead.
pub struct InputIterator {
    pub tokens: Vec<Token>,
    pub pos: usize,
}

impl InputIterator {
    /// A cursor at the first token.
    pub fn new(tokens: Vec<Token>) -> (r: InputIterator)
        ensures
            r.tokens@ == tokens@,
            r.pos == 0,
    {
        InputIterator { tokens, pos: 0 }
    }

    /// The next token, if any, without consuming it.
    pub fn peek(&self) -> (r: Option<&Token>)
        ensures
            self.pos < self.tokens@.len() ==> r == Some(&self.tokens@[self.pos as int]),
            self.pos >= self.tokens@.len() ==> r is None,
    {
        if self.pos < self.tokens.len() {
            Some(&self.tokens[self.pos])
        } else {
            None
        }
    }

    /// Consumes the next token if it is `value`; says whether it did.
    pub fn expect(&mut self, value: Token) -> (r: bool)
        ensures
            final(self).tokens@ == old(self).tokens@,
            r == (old(self).pos < old(self).tokens@.len() && same_token(
                old(self).tokens@[old(self).pos as int],
                value,
            )),
            final(self).pos == if r {
                old(self).pos + 1
            } else {
                old(self).pos as int
            },
    {
        if self.pos < self.tokens.len() && self.tokens[self.pos].same_as(&value) {
            self.pos = self.pos + 1;
            true
        } else {
            false
        }
    }

    /// Consumes and returns the next token, if any.
    pub fn next(&mut self) -> (r: Option<Token>)
        ensures
            final(self).tokens@ == old(self).tokens@,
            old(self).pos < old(self).tokens@.len() ==> r == Some(
                old(self).tokens@[old(self).pos as int],
            ) && final(self).pos == old(self).pos + 1,
            old(self).pos >= old(self).tokens@.len() ==> r is None && final(self).pos == old(
                self,
            ).pos,
    {
        if self.pos < self.tokens.len() {
            let t = self.tokens[self.pos].copy();
            self.pos = self.pos + 1;
            Some(t)
        } else {
            None
        }
    }
}

/// What parsing from `pos` promises of a result and of the cursor after it.
pub open spec fn parsed_as(
    r: Result<Value, ParseError>,
    expected: Result<(Schema, int), Fault>,
    ts: Seq<Token>,
    end: int,
) -> bool {
    match expected {
        Ok((s, p)) => r matches Ok(v) && v@ == s && end == p,
        Err(f) => r matches Err(e) && reports(e, f, ts),
    }
}

fn unexpected_next(tokens: &mut InputIterator) -> (r: ParseError)
    requires
        old(tokens).pos <= old(tokens).tokens@.len(),
    ensures
        final(tokens).tokens@ == old(tokens).tokens@,
        final(tokens).pos <= final(tokens).tokens@.len(),
        old(tokens).pos < old(tokens).tokens@.len() ==> r == ParseError::UnexpectedToken(
            old(tokens).tokens@[old(tokens).pos as int],
        ),
        old(tokens).pos >= old(tokens).tokens@.len() ==> r is UnexpectedEnd,
{
    match tokens.next() {
        Some(t) => ParseError::UnexpectedToken(t),
        None => ParseError::UnexpectedEnd,
    }
}

/// Parses the value at the cursor, merging the elements of each array as it goes.
pub fn parse_value(tokens: &mut InputIterator) -> (r: Result<Value, ParseError>)
    requires
        old(tokens).pos <= old(tokens).tokens@.len(),
    ensures
        final(tokens).tokens@ == old(tokens).tokens@,
        final(tokens).pos <= final(tokens).tokens@.len(),
        r is Ok ==> final(tokens).pos > old(tokens).pos,
        parsed_as(r, parse_at(old(tokens).tokens@, old(tokens).pos as int), old(tokens).tokens@, final(tokens).pos as int),
    decreases old(tokens).tokens@.len() - old(tokens).pos, 0int,
{
    let first = tokens.next();
    match first {
        None => Err(ParseError::UnexpectedEnd),
        Some(t) => {
            match t {
                Token::CurlyOpen => parse_object(tokens),
                Token::BracketOpen => parse_array(tokens),
                Token::String(_) | Token::Number(_) | Token::Boolean | Token::Null => Ok(Value::from_token(t)),
                _ => Err(ParseError::UnexpectedToken(t)),
            }
        },
    }
}

fn parse_object(tokens: &mut InputIterator) -> (r: Result<Value, ParseError>)
    requires
        old(tokens).pos <= old(tokens).tokens@.len(),
    ensures
        final(tokens).tokens@ == old(tokens).tokens@,
        final(tokens).pos <= final(tokens).tokens@.len(),
        r is Ok ==> final(tokens).pos > old(tokens).pos,
        parsed_as(r, parse_object_at(old(tokens).tokens@, old(tokens).pos as int), old(tokens).tokens@, final(tokens).pos as int),
    decreases old(tokens).tokens@.len() - old(tokens).pos, 2int,
{
    let ghost ts = tokens.tokens@;
    let ghost goal = parse_object_at(ts, tokens.pos as int);
    let ghost start = tokens.pos as int;
    if tokens.expect(Token::CurlyClose) {
        let r = Value::Object(Vec::new());
        assert(fields_of(Seq::<(String, Vec<Value>, bool)>::empty()) =~= Seq::empty());
        return Ok(r);
    }
    let mut pairs: Vec<(String, Vec<Value>, bool)> = Vec::new();
    assert(fields_of(pairs@) =~= Seq::empty());
    loop
        invariant
            tokens.tokens@ == ts,
            ts == old(tokens).tokens@,
            start == old(tokens).pos,
            start <= tokens.pos <= ts.len(),
            goal == parse_members(ts, tokens.pos as int, fields_of(pairs@)),
            goal == parse_object_at(ts, start),
        decreases ts.len() - tokens.pos,
    {
        let ghost here = tokens.pos as int;
        let key_tok = tokens.next();
        let k = match key_tok {
            None => {
                return Err(ParseError::UnexpectedEnd);
            },
            Some(Token::String(k)) => k,
            Some(t) => {
                return Err(ParseError::UnexpectedToken(t));
            },
        };
        let len = k.as_str().unicode_len();
        if len < 2 {
            return Err(ParseError::UnexpectedToken(Token::String(k)));
        }
        let key: String = k.as_str().substring_char(1, len - 1).to_owned();
        assert(key@ == key_name(k@));
        if find_field(&pairs, &key).is_some() {
            return Err(ParseError::DuplicateKey(key));
        }
        if !tokens.expect(Token::Colon) {
            return Err(unexpected_next(tokens));
        }
        let v = match parse_value(tokens) {
            Ok(v) => v,
            Err(e) => {
                return Err(e);
            },
        };
        let ghost p = tokens.pos as int;
        let ghost before = pairs@;
        let mut alts: Vec<Value> = Vec::new();
        alts.push(v);
        pairs.push((key, alts, false));
        proof {
            lemma_alts_view(alts@, 1);
            assert(alts_of(alts@) =~= seq![v@]);
            lemma_fields_view(before, before.len() as int);
            lemma_fields_view(pairs@, pairs@.len() as int);
            assert(fields_of(pairs@) =~= fields_of(before).push((key_name(k@), seq![v@], false)));
        }
        match tokens.next() {
            None => {
                return Err(ParseError::UnexpectedEnd);
            },
            Some(Token::Comma) => {},
            Some(Token::CurlyClose) => {
                return Ok(Value::Object(pairs));
            },
            Some(t) => {
                return Err(ParseError::UnexpectedToken(t));
            },
        }
    }
}

fn parse_array(tokens: &mut InputIterator) -> (r: Result<Value, ParseError>)
    requires
        old(tokens).pos <= old(tokens).tokens@.len(),
    ensures
        final(tokens).tokens@ == old(tokens).tokens@,
        final(tokens).pos <= final(tokens).tokens@.len(),
        r is Ok ==> final(tokens).pos > old(tokens).pos,
        parsed_as(r, parse_array_at(old(tokens).tokens@, old(tokens).pos as int), old(tokens).tokens@, final(tokens).pos as int),
    decreases old(tokens).tokens@.len() - old(tokens).pos, 2int,
{
    let ghost ts = tokens.tokens@;
    let ghost goal = parse_array_at(ts, tokens.pos as int);
    let ghost start = tokens.pos as int;
    if tokens.expect(Token::BracketClose) {
        let r = Value::Array(Vec::new(), 0, 0);
        assert(alts_of(Seq::<Value>::empty()) =~= Seq::empty());
        return Ok(r);
    }
    let mut values: Vec<Value> = Vec::new();
    let mut n: usize = 0;
    assert(alts_of(values@) =~= Seq::empty());
    loop
        invariant
            tokens.tokens@ == ts,
            ts == old(tokens).tokens@,
            start == old(tokens).pos,
            start <= tokens.pos <= ts.len(),
            n <= tokens.pos,
            goal == parse_elements(ts, tokens.pos as int, alts_of(values@), n as nat),
            goal == parse_array_at(ts, start),
        decreases ts.len() - tokens.pos,
    {
        let v = match parse_value(tokens) {
            Ok(v) => v,
            Err(e) => {
                return Err(e);
            },
        };
        n = n + 1;
        absorb_into(&mut values, &v);
        match tokens.next() {
            None => {
                return Err(ParseError::UnexpectedEnd);
            },
            Some(Token::Comma) => {},
            Some(Token::BracketClose) => {
                return Ok(Value::Array(values, n, n));
            },
            Some(t) => {
                return Err(ParseError::UnexpectedToken(t));
            },
        }
    }
}

/// The schema of the value that the token sequence starts with; tokens after it are not read.
pub fn parse_tokens(tokens: Vec<Token>) -> (r: Result<Value, ParseError>)
    ensures
        match parse_at(tokens@, 0) {
            Ok((s, _)) => r matches Ok(v) && v@ == s,
            Err(f) => r matches Err(e) && reports(e, f, tokens@),
        },
        r matches Ok(v) ==> wf(v@),
{
    let mut it = InputIterator::new(tokens);
    proof {
        lemma_parse_wf(it.tokens@, 0);
    }
    parse_value(&mut it)
}

} // verus!
