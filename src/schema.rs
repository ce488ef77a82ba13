use vstd::prelude::*;

use crate::token::Token;

verus! {

/// The mathematical model of a schema node: example literals as character sequences, and the
/// alternatives, fields and lengths as sequences and naturals.
pub enum Schema {
    Str(Seq<Seq<char>>, bool),
    Bool,
    Num(Seq<Seq<char>>, bool),
    Null,
    Obj(Seq<(Seq<char>, Seq<Schema>, bool)>),
    Arr(Seq<Schema>, nat, nat),
}

/// An inferred schema node. Scalars keep up to four distinct example literals and a mark for
/// examples left out; an object keeps, per key, the alternatives seen under it and whether the
/// key is optional; an array keeps the alternatives of its elements and its length range.
#[derive(Debug)]
pub enum Value {
    String(Vec<String>, bool),
    Boolean,
    Number(Vec<String>, bool),
    Null,
    Object(Vec<(String, Vec<Value>, bool)>),
    Array(Vec<Value>, usize, usize),
}

/// The characters of each text.
pub open spec fn texts_view(ts: Seq<String>) -> Seq<Seq<char>> {
    Seq::new(ts.len(), |i: int| ts[i]@)
}

/// The model of a schema node.
pub open spec fn value_view(v: Value) -> Schema
    decreases v, 0int,
{
    match v {
        Value::String(ex, t) => Schema::Str(texts_view(ex@), t),
        Value::Boolean => Schema::Bool,
        Value::Number(ex, t) => Schema::Num(texts_view(ex@), t),
        Value::Null => Schema::Null,
        Value::Object(fs) => Schema::Obj(fields_view(fs@, fs@.len() as int)),
        Value::Array(vs, lo, hi) => Schema::Arr(alts_view(vs@, vs@.len() as int), lo as nat, hi as nat),
    }
}

/// The models of `vs[0..n)`.
pub open spec fn alts_view(vs: Seq<Value>, n: int) -> Seq<Schema>
    decreases vs, n,
{
    if n <= 0 || n > vs.len() {
        Seq::empty()
    } else {
        alts_view(vs, n - 1).push(value_view(vs[n - 1]))
    }
}

/// The models of the fields `fs[0..n)`.
pub open spec fn fields_view(fs: Seq<(String, Vec<Value>, bool)>, n: int) -> Seq<(Seq<char>, Seq<Schema>, bool)>
    decreases fs, n,
{
    if n <= 0 || n > fs.len() {
        Seq::empty()
    } else {
        let f = fs[n - 1];
        fields_view(fs, n - 1).push((f.0@, alts_view(f.1@, f.1@.len() as int), f.2))
    }
}


/// The view of a sequence of alternatives, element by element.
pub open spec fn alts_of(vs: Seq<Value>) -> Seq<Schema> {
    alts_view(vs, vs.len() as int)
}

/// The view of a sequence of object fields, element by element.
pub open spec fn fields_of(fs: Seq<(String, Vec<Value>, bool)>) -> Seq<(Seq<char>, Seq<Schema>, bool)> {
    fields_view(fs, fs.len() as int)
}

impl View for Value {
    type V = Schema;

    open spec fn view(&self) -> Schema {
        value_view(*self)
    }
}

/// `alts_view` element by element.
pub proof fn lemma_alts_view(vs: Seq<Value>, n: int)
    requires
        0 <= n <= vs.len(),
    ensures
        alts_view(vs, n).len() == n,
        forall|i: int| 0 <= i < n ==> #[trigger] alts_view(vs, n)[i] == value_view(vs[i]),
    decreases n,
{
    if n > 0 {
        lemma_alts_view(vs, n - 1);
    }
}

/// `fields_view` element by element.
pub proof fn lemma_fields_view(fs: Seq<(String, Vec<Value>, bool)>, n: int)
    requires
        0 <= n <= fs.len(),
    ensures
        fields_view(fs, n).len() == n,
        forall|i: int|
            0 <= i < n ==> #[trigger] fields_view(fs, n)[i] == (
                fs[i].0@,
                alts_of(fs[i].1@),
                fs[i].2,
            ),
    decreases n,
{
    if n > 0 {
        lemma_fields_view(fs, n - 1);
    }
}

/// Two sequences of alternatives with the same views element by element have the same view.
pub proof fn lemma_alts_of_ext(a: Seq<Value>, b: Seq<Value>)
    requires
        a.len() == b.len(),
        forall|i: int| 0 <= i < a.len() ==> value_view(#[trigger] a[i]) == value_view(b[i]),
    ensures
        alts_of(a) == alts_of(b),
{
    lemma_alts_view(a, a.len() as int);
    lemma_alts_view(b, b.len() as int);
    assert(alts_of(a) =~= alts_of(b));
}

/// Two sequences of fields with the same views element by element have the same view.
pub proof fn lemma_fields_of_ext(a: Seq<(String, Vec<Value>, bool)>, b: Seq<(String, Vec<Value>, bool)>)
    requires
        a.len() == b.len(),
        forall|i: int|
            0 <= i < a.len() ==> (#[trigger] a[i]).0@ == b[i].0@ && alts_of(a[i].1@) == alts_of(
                b[i].1@,
            ) && a[i].2 == b[i].2,
    ensures
        fields_of(a) == fields_of(b),
{
    lemma_fields_view(a, a.len() as int);
    lemma_fields_view(b, b.len() as int);
    assert(fields_of(a) =~= fields_of(b));
}

/// A copy of a list of texts.
pub fn copy_texts(ts: &Vec<String>) -> (r: Vec<String>)
    ensures
        texts_view(r@) == texts_view(ts@),
{
    let mut out: Vec<String> = Vec::new();
    let mut i: usize = 0;
    while i < ts.len()
        invariant
            i <= ts.len(),
            out@.len() == i,
            forall|k: int| 0 <= k < i ==> (#[trigger] out@[k])@ == ts@[k]@,
        decreases ts.len() - i,
    {
        out.push(ts[i].clone());
        i += 1;
    }
    assert(texts_view(out@) =~= texts_view(ts@));
    out
}

impl Value {
    /// A copy of this schema node, equal to it in every part.
    pub fn copy(&self) -> (r: Value)
        ensures
            r@ == self@,
        decreases self,
    {
        match self {
            Value::String(ex, t) => Value::String(copy_texts(ex), *t),
            Value::Boolean => Value::Boolean,
            Value::Number(ex, t) => Value::Number(copy_texts(ex), *t),
            Value::Null => Value::Null,
            Value::Object(fs) => {
                let r = copy_fields(fs);
                Value::Object(r)
            },
            Value::Array(vs, lo, hi) => {
                let r = copy_alts(vs);
                Value::Array(r, *lo, *hi)
            },
        }
    }
}

/// Copies of a list of alternatives.
pub fn copy_alts(vs: &Vec<Value>) -> (r: Vec<Value>)
    ensures
        alts_of(r@) == alts_of(vs@),
    decreases vs,
{
    let mut out: Vec<Value> = Vec::new();
    let mut i: usize = 0;
    while i < vs.len()
        invariant
            i <= vs.len(),
            out@.len() == i,
            forall|k: int| 0 <= k < i ==> value_view(#[trigger] out@[k]) == value_view(vs@[k]),
        decreases vs.len() - i,
    {
        proof {
            assert(decreases_to!(vs => vs[i as int]));
        }
        out.push(vs[i].copy());
        i += 1;
    }
    proof {
        lemma_alts_of_ext(out@, vs@);
    }
    out
}

/// Copies of a list of object fields.
pub fn copy_fields(fs: &Vec<(String, Vec<Value>, bool)>) -> (r: Vec<(String, Vec<Value>, bool)>)
    ensures
        fields_of(r@) == fields_of(fs@),
    decreases fs,
{
    let mut out: Vec<(String, Vec<Value>, bool)> = Vec::new();
    let mut i: usize = 0;
    while i < fs.len()
        invariant
            i <= fs.len(),
            out@.len() == i,
            forall|k: int|
                0 <= k < i ==> (#[trigger] out@[k]).0@ == fs@[k].0@ && alts_of(out@[k].1@)
                    == alts_of(fs@[k].1@) && out@[k].2 == fs@[k].2,
        decreases fs.len() - i,
    {
        let f = &fs[i];
        proof {
            assert(decreases_to!(fs => fs[i as int]));
        }
        let alts = copy_alts(&f.1);
        out.push((f.0.clone(), alts, f.2));
        i += 1;
    }
    proof {
        lemma_fields_of_ext(out@, fs@);
    }
    out
}

/// Whether a token can start a value.
pub open spec fn starts_value(t: Token) -> bool {
    match t {
        Token::String(_) | Token::Number(_) | Token::Boolean | Token::Null | Token::CurlyOpen
        | Token::BracketOpen => true,
        _ => false,
    }
}

/// The schema of the value that a token starts: a literal with itself as sole example, or an
/// empty object or array.
pub open spec fn token_schema(t: Token) -> Schema {
    match t {
        Token::String(s) => Schema::Str(seq![s@], false),
        Token::Number(s) => Schema::Num(seq![s@], false),
        Token::Boolean => Schema::Bool,
        Token::Null => Schema::Null,
        Token::CurlyOpen => Schema::Obj(Seq::empty()),
        _ => Schema::Arr(Seq::empty(), 0, 0),
    }
}

impl Value {
    /// The schema node that a value-starting token gives before anything else is read.
    pub fn from_token(kind: Token) -> (r: Value)
        requires
            starts_value(kind),
        ensures
            r@ == token_schema(kind),
    {
        match kind {
            Token::String(s) => {
                let mut examples: Vec<String> = Vec::new();
                examples.push(s);
                let r = Value::String(examples, false);
                assert(texts_view(examples@) =~= seq![s@]);
                r
            },
            Token::Number(s) => {
                let mut examples: Vec<String> = Vec::new();
                examples.push(s);
                let r = Value::Number(examples, false);
                assert(texts_view(examples@) =~= seq![s@]);
                r
            },
            Token::Boolean => Value::Boolean,
            Token::Null => Value::Null,
            Token::CurlyOpen => {
                let r = Value::Object(Vec::new());
                assert(fields_of(Seq::<(String, Vec<Value>, bool)>::empty()) =~= Seq::empty());
                r
            },
            _ => {
                let r = Value::Array(Vec::new(), 0, 0);
                assert(alts_of(Seq::<Value>::empty()) =~= Seq::empty());
                r
            },
        }
    }

    /// The rank of this node's kind in listings: null, boolean, number, string, array, object.
    pub fn sort_key(&self) -> (r: usize)
        ensures
            r as nat == crate::merge::kind_rank(self@),
    {
        match self {
            Value::Null => 1,
            Value::Boolean => 2,
            Value::Number(..) => 3,
            Value::String(..) => 4,
            Value::Array(..) => 5,
            Value::Object(..) => 6,
        }
    }
}

} // verus!
