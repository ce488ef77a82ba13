use vstd::prelude::*;

use crate::laws::{lemma_merge_wf, wf};
use crate::schema::{
    alts_of, copy_alts, copy_texts, fields_of, lemma_alts_view, lemma_fields_view, texts_view, Schema,
    Value,
};

verus! {

/// At most this many distinct example literals are kept for one scalar.
pub const MAX_EXAMPLES: usize = 4;

/// The examples kept after offering `e2[0..n)`, in order, to `e1`: a literal is added when it
/// is new and there is still room for it.
pub open spec fn add_examples(e1: Seq<Seq<char>>, e2: Seq<Seq<char>>, n: int) -> Seq<Seq<char>>
    decreases n,
{
    if n <= 0 || n > e2.len() {
        e1
    } else {
        let acc = add_examples(e1, e2, n - 1);
        let x = e2[n - 1];
        if acc.contains(x) || acc.len() >= MAX_EXAMPLES {
            acc
        } else {
            acc.push(x)
        }
    }
}

/// Whether some literal of `e2[0..n)` was new but found no room.
pub open spec fn dropped_example(e1: Seq<Seq<char>>, e2: Seq<Seq<char>>, n: int) -> bool
    decreases n,
{
    if n <= 0 || n > e2.len() {
        false
    } else {
        let acc = add_examples(e1, e2, n - 1);
        dropped_example(e1, e2, n - 1) || (!acc.contains(e2[n - 1]) && acc.len()
            >= MAX_EXAMPLES)
    }
}

/// The order in which alternatives of different kinds are listed.
pub open spec fn kind_rank(s: Schema) -> nat {
    match s {
        Schema::Null => 1,
        Schema::Bool => 2,
        Schema::Num(..) => 3,
        Schema::Str(..) => 4,
        Schema::Arr(..) => 5,
        Schema::Obj(..) => 6,
    }
}

/// The merge of two schemas: `None` when their kinds differ.
pub open spec fn merge(a: Schema, b: Schema) -> Option<Schema>
    decreases b, 0int, 0int,
{
    match (a, b) {
        (Schema::Str(e1, t1), Schema::Str(e2, t2)) => Some(
            Schema::Str(
                add_examples(e1, e2, e2.len() as int),
                t1 || t2 || dropped_example(e1, e2, e2.len() as int),
            ),
        ),
        (Schema::Num(e1, t1), Schema::Num(e2, t2)) => Some(
            Schema::Num(
                add_examples(e1, e2, e2.len() as int),
                t1 || t2 || dropped_example(e1, e2, e2.len() as int),
            ),
        ),
        (Schema::Bool, Schema::Bool) => Some(Schema::Bool),
        (Schema::Null, Schema::Null) => Some(Schema::Null),
        (Schema::Obj(f1), Schema::Obj(f2)) => Some(
            Schema::Obj(merged_fields(f1, f2, f1.len() as int) + right_only_fields(f1, f2, f2.len() as int)),
        ),
        (Schema::Arr(a1, lo1, hi1), Schema::Arr(a2, lo2, hi2)) => Some(
            Schema::Arr(
                absorb_all(a1, a2, a2.len() as int),
                if lo1 <= lo2 { lo1 } else { lo2 },
                if hi1 >= hi2 { hi1 } else { hi2 },
            ),
        ),
        _ => None,
    }
}

/// `x` merged into the first alternative of `acc[i..]` that accepts it, or appended.
pub open spec fn absorb(acc: Seq<Schema>, x: Schema, i: int) -> Seq<Schema>
    decreases x, 1int, acc.len() - i,
{
    if 0 <= i < acc.len() {
        match merge(acc[i], x) {
            Some(m) => acc.update(i, m),
            None => absorb(acc, x, i + 1),
        }
    } else {
        acc.push(x)
    }
}

/// `xs[0..n)` absorbed, in order, into `acc`.
pub open spec fn absorb_all(acc: Seq<Schema>, xs: Seq<Schema>, n: int) -> Seq<Schema>
    decreases xs, 2int, n,
{
    if 0 < n <= xs.len() {
        absorb(absorb_all(acc, xs, n - 1), xs[n - 1], 0)
    } else {
        acc
    }
}

/// The index of the first field of `fs[i..]` named `k`, if any.
pub open spec fn find_key(fs: Seq<(Seq<char>, Seq<Schema>, bool)>, k: Seq<char>, i: int) -> Option<int>
    decreases fs.len() - i,
{
    if 0 <= i < fs.len() {
        if fs[i].0 == k {
            Some(i)
        } else {
            find_key(fs, k, i + 1)
        }
    } else {
        None
    }
}

/// The fields `f1[0..n)`, each merged with the field of the same name in `f2`, or made
/// optional where `f2` lacks it.
pub open spec fn merged_fields(
    f1: Seq<(Seq<char>, Seq<Schema>, bool)>,
    f2: Seq<(Seq<char>, Seq<Schema>, bool)>,
    n: int,
) -> Seq<(Seq<char>, Seq<Schema>, bool)>
    decreases f2, 3int, n,
{
    if 0 < n <= f1.len() {
        let f = f1[n - 1];
        let prev = merged_fields(f1, f2, n - 1);
        match find_key(f2, f.0, 0) {
            Some(j) => if 0 <= j < f2.len() {
                prev.push((f.0, absorb_all(f.1, f2[j].1, f2[j].1.len() as int), f.2 || f2[j].2))
            } else {
                prev
            },
            None => prev.push((f.0, f.1, true)),
        }
    } else {
        Seq::empty()
    }
}

/// The fields of `f2[0..n)` whose names `f1` lacks, made optional.
pub open spec fn right_only_fields(
    f1: Seq<(Seq<char>, Seq<Schema>, bool)>,
    f2: Seq<(Seq<char>, Seq<Schema>, bool)>,
    n: int,
) -> Seq<(Seq<char>, Seq<Schema>, bool)>
    decreases n,
{
    if 0 < n <= f2.len() {
        let g = f2[n - 1];
        let prev = right_only_fields(f1, f2, n - 1);
        if find_key(f1, g.0, 0) is Some {
            prev
        } else {
            prev.push((g.0, g.1, true))
        }
    } else {
        Seq::empty()
    }
}

fn contains_text(ts: &Vec<String>, x: &String) -> (r: bool)
    ensures
        r == texts_view(ts@).contains(x@),
{
    let mut i: usize = 0;
    while i < ts.len()
        invariant
            i <= ts.len(),
            forall|k: int| 0 <= k < i ==> (#[trigger] ts@[k])@ != x@,
        decreases ts.len() - i,
    {
        if ts[i] == *x {
            assert(texts_view(ts@)[i as int] == x@);
            return true;
        }
        i += 1;
    }
    assert forall|k: int| 0 <= k < texts_view(ts@).len() implies texts_view(ts@)[k] != x@ by {
        assert(ts@[k]@ != x@);
    }
    false
}

/// The examples of `e1` with those of `e2` added in order while there is room, and whether a
/// new one was left out.
pub fn merge_examples(e1: &Vec<String>, e2: &Vec<String>) -> (r: (Vec<String>, bool))
    ensures
        texts_view(r.0@) == add_examples(texts_view(e1@), texts_view(e2@), e2@.len() as int),
        r.1 == dropped_example(texts_view(e1@), texts_view(e2@), e2@.len() as int),
{
    let ghost a = texts_view(e1@);
    let ghost b = texts_view(e2@);
    let mut acc = copy_texts(e1);
    let mut dropped = false;
    let mut j: usize = 0;
    while j < e2.len()
        invariant
            j <= e2.len(),
            a == texts_view(e1@),
            b == texts_view(e2@),
            texts_view(acc@) == add_examples(a, b, j as int),
            dropped == dropped_example(a, b, j as int),
        decreases e2.len() - j,
    {
        let x = &e2[j];
        assert(b[j as int] == x@);
        let present = contains_text(&acc, x);
        if !present {
            if acc.len() < MAX_EXAMPLES {
                let ghost before = acc@;
                acc.push(x.clone());
                assert(texts_view(acc@) =~= texts_view(before).push(x@));
            } else {
                dropped = true;
            }
        }
        j += 1;
    }
    (acc, dropped)
}

/// Merges `x` into the first alternative of `alts` that accepts it, or appends it.
pub fn absorb_into(alts: &mut Vec<Value>, x: &Value)
    ensures
        alts_of(final(alts)@) == absorb(alts_of(old(alts)@), x@, 0),
    decreases x, 1int, 0int,
{
    let ghost a = alts_of(alts@);
    proof {
        lemma_alts_view(alts@, alts@.len() as int);
    }
    let mut i: usize = 0;
    while i < alts.len()
        invariant
            i <= alts.len(),
            a == alts_of(alts@),
            a == alts_of(old(alts)@),
            a.len() == alts@.len(),
            forall|k: int| 0 <= k < a.len() ==> #[trigger] a[k] == alts@[k]@,
            absorb(a, x@, 0) == absorb(a, x@, i as int),
        decreases alts.len() - i,
    {
        let res = alts[i].merge_with(x);
        match res {
            Ok(m) => {
                assert(absorb(a, x@, i as int) == a.update(i as int, m@));
                alts.set(i, m);
                proof {
                    lemma_alts_view(alts@, alts@.len() as int);
                    assert(alts_of(alts@) =~= a.update(i as int, m@));
                }
                return;
            },
            Err(_) => {},
        }
        i += 1;
    }
    let ghost before = alts@;
    alts.push(x.copy());
    proof {
        lemma_alts_view(alts@, alts@.len() as int);
        assert(alts_of(alts@) =~= a.push(x@));
    }
}

/// Absorbs every alternative of `xs`, in order, into `alts`.
pub fn absorb_all_into(alts: &mut Vec<Value>, xs: &Vec<Value>)
    ensures
        alts_of(final(alts)@) == absorb_all(alts_of(old(alts)@), alts_of(xs@), xs@.len() as int),
    decreases xs, 2int, 0int,
{
    let ghost a = alts_of(alts@);
    let ghost b = alts_of(xs@);
    proof {
        lemma_alts_view(xs@, xs@.len() as int);
    }
    let mut j: usize = 0;
    while j < xs.len()
        invariant
            j <= xs.len(),
            b == alts_of(xs@),
            b.len() == xs@.len(),
            forall|k: int| 0 <= k < b.len() ==> #[trigger] b[k] == xs@[k]@,
            alts_of(alts@) == absorb_all(a, b, j as int),
        decreases xs.len() - j,
    {
        proof {
            assert(decreases_to!(xs => xs[j as int]));
        }
        absorb_into(alts, &xs[j]);
        j += 1;
    }
}

/// The index of the first field of `fs` named `k`, if any.
pub(crate) fn find_field(fs: &Vec<(String, Vec<Value>, bool)>, k: &String) -> (r: Option<usize>)
    ensures
        r matches Some(j) ==> j < fs@.len(),
        r matches Some(j) ==> find_key(fields_of(fs@), k@, 0) == Some(j as int),
        r is None ==> find_key(fields_of(fs@), k@, 0) is None,
{
    let ghost f = fields_of(fs@);
    proof {
        lemma_fields_view(fs@, fs@.len() as int);
    }
    let mut i: usize = 0;
    while i < fs.len()
        invariant
            i <= fs.len(),
            f == fields_of(fs@),
            f.len() == fs@.len(),
            forall|n: int| 0 <= n < f.len() ==> (#[trigger] f[n]).0 == fs@[n].0@,
            find_key(f, k@, 0) == find_key(f, k@, i as int),
        decreases fs.len() - i,
    {
        if fs[i].0 == *k {
            return Some(i);
        }
        i += 1;
    }
    None
}

/// The fields of two objects merged: those of `f1` in their order, then those only `f2` has.
pub fn merge_fields(f1: &Vec<(String, Vec<Value>, bool)>, f2: &Vec<(String, Vec<Value>, bool)>) -> (r:
    Vec<(String, Vec<Value>, bool)>)
    ensures
        fields_of(r@) == merged_fields(fields_of(f1@), fields_of(f2@), f1@.len() as int)
            + right_only_fields(fields_of(f1@), fields_of(f2@), f2@.len() as int),
    decreases f2, 3int, 0int,
{
    let ghost a = fields_of(f1@);
    let ghost b = fields_of(f2@);
    proof {
        lemma_fields_view(f1@, f1@.len() as int);
        lemma_fields_view(f2@, f2@.len() as int);
    }
    let mut out: Vec<(String, Vec<Value>, bool)> = Vec::new();
    let mut i: usize = 0;
    while i < f1.len()
        invariant
            i <= f1.len(),
            a == fields_of(f1@),
            b == fields_of(f2@),
            a.len() == f1@.len(),
            b.len() == f2@.len(),
            forall|n: int| 0 <= n < a.len() ==> #[trigger] a[n] == (f1@[n].0@, alts_of(f1@[n].1@), f1@[n].2),
            forall|n: int| 0 <= n < b.len() ==> #[trigger] b[n] == (f2@[n].0@, alts_of(f2@[n].1@), f2@[n].2),
            fields_of(out@) == merged_fields(a, b, i as int),
        decreases f1.len() - i,
    {
        let f = &f1[i];
        let mut alts = copy_alts(&f.1);
        let found = find_field(f2, &f.0);
        let optional;
        match found {
            Some(j) => {
                let g = &f2[j];
                proof {
                    assert(decreases_to!(f2 => f2[j as int]));
                }
                absorb_all_into(&mut alts, &g.1);
                proof {
                    lemma_alts_view(g.1@, g.1@.len() as int);
                    assert(b[j as int].1.len() == g.1@.len());
                }
                optional = f.2 || g.2;
            },
            None => {
                optional = true;
            },
        }
        let ghost before = out@;
        out.push((f.0.clone(), alts, optional));
        proof {
            lemma_fields_view(before, before.len() as int);
            lemma_fields_view(out@, out@.len() as int);
            assert(fields_of(out@) =~= fields_of(before).push(fields_of(out@).last()));
        }
        i += 1;
    }
    let ghost left = fields_of(out@);
    let mut j: usize = 0;
    while j < f2.len()
        invariant
            j <= f2.len(),
            a == fields_of(f1@),
            b == fields_of(f2@),
            a.len() == f1@.len(),
            b.len() == f2@.len(),
            forall|n: int| 0 <= n < a.len() ==> #[trigger] a[n] == (f1@[n].0@, alts_of(f1@[n].1@), f1@[n].2),
            forall|n: int| 0 <= n < b.len() ==> #[trigger] b[n] == (f2@[n].0@, alts_of(f2@[n].1@), f2@[n].2),
            left == merged_fields(a, b, f1@.len() as int),
            fields_of(out@) == left + right_only_fields(a, b, j as int),
        decreases f2.len() - j,
    {
        let g = &f2[j];
        let found = find_field(f1, &g.0);
        if found.is_none() {
            let alts = copy_alts(&g.1);
            let ghost before = out@;
            out.push((g.0.clone(), alts, true));
            proof {
                lemma_fields_view(before, before.len() as int);
                lemma_fields_view(out@, out@.len() as int);
                assert(fields_of(out@) =~= fields_of(before).push(fields_of(out@).last()));
            }
        }
        j += 1;
    }
    out
}

impl Value {
    /// The merge of two schema nodes of the same kind; `Err` when their kinds differ.
    pub fn merge_with(&self, other: &Value) -> (r: Result<Value, ()>)
        ensures
            r matches Ok(v) ==> merge(self@, other@) == Some(v@),
            r is Err <==> merge(self@, other@) is None,
            wf(self@) && wf(other@) ==> (r matches Ok(v) ==> wf(v@)),
        decreases other, 0int, 0int,
    {
        proof {
            if wf(self@) && wf(other@) {
                lemma_merge_wf(self@, other@);
            }
        }
        match (self, other) {
            (Value::String(e1, t1), Value::String(e2, t2)) => {
                let (ex, dropped) = merge_examples(e1, e2);
                Ok(Value::String(ex, *t1 || *t2 || dropped))
            },
            (Value::Number(e1, t1), Value::Number(e2, t2)) => {
                let (ex, dropped) = merge_examples(e1, e2);
                Ok(Value::Number(ex, *t1 || *t2 || dropped))
            },
            (Value::Boolean, Value::Boolean) => Ok(Value::Boolean),
            (Value::Null, Value::Null) => Ok(Value::Null),
            (Value::Object(f1), Value::Object(f2)) => {
                let fs = merge_fields(f1, f2);
                proof {
                    lemma_fields_view(f1@, f1@.len() as int);
                    lemma_fields_view(f2@, f2@.len() as int);
                }
                Ok(Value::Object(fs))
            },
            (Value::Array(a1, lo1, hi1), Value::Array(a2, lo2, hi2)) => {
                let mut alts = copy_alts(a1);
                absorb_all_into(&mut alts, a2);
                proof {
                    lemma_alts_view(a2@, a2@.len() as int);
                }
                let lo = if *lo1 <= *lo2 { *lo1 } else { *lo2 };
                let hi = if *hi1 >= *hi2 { *hi1 } else { *hi2 };
                Ok(Value::Array(alts, lo, hi))
            },
            _ => Err(()),
        }
    }
}

/// The alternatives of rank `r` or lower, in listing order: by kind, then as recorded.
pub open spec fn listed_upto(alts: Seq<Schema>, r: nat) -> Seq<Schema>
    decreases r,
{
    if r == 0 {
        Seq::empty()
    } else {
        listed_upto(alts, (r - 1) as nat) + alts.filter(|s: Schema| kind_rank(s) == r)
    }
}

/// Alternatives in listing order: null, boolean, number, string, array, object.
pub open spec fn listed(alts: Seq<Schema>) -> Seq<Schema> {
    listed_upto(alts, 6)
}

/// Copies of the alternatives in listing order.
pub fn in_listing_order(alts: &Vec<Value>) -> (r: Vec<Value>)
    ensures
        alts_of(r@) == listed(alts_of(alts@)),
{
    let ghost a = alts_of(alts@);
    proof {
        lemma_alts_view(alts@, alts@.len() as int);
    }
    let mut out: Vec<Value> = Vec::new();
    assert(alts_of(out@) =~= Seq::<Schema>::empty());
    let mut rank: usize = 1;
    while rank <= 6
        invariant
            1 <= rank <= 7,
            a == alts_of(alts@),
            a.len() == alts@.len(),
            forall|k: int| 0 <= k < a.len() ==> #[trigger] a[k] == alts@[k]@,
            alts_of(out@) == listed_upto(a, (rank - 1) as nat),
        decreases 7 - rank,
    {
        let ghost base = alts_of(out@);
        let mut i: usize = 0;
        while i < alts.len()
            invariant
                1 <= rank <= 6,
                i <= alts.len(),
                a == alts_of(alts@),
                a.len() == alts@.len(),
                forall|k: int| 0 <= k < a.len() ==> #[trigger] a[k] == alts@[k]@,
                base == listed_upto(a, (rank - 1) as nat),
                alts_of(out@) == base + a.take(i as int).filter(|s: Schema| kind_rank(s) == rank),
            decreases alts.len() - i,
        {
            let ghost before = out@;
            assert(a.take(i as int + 1).drop_last() =~= a.take(i as int));
            proof {
                reveal(Seq::filter);
            }
            if alts[i].sort_key() == rank {
                out.push(alts[i].copy());
                proof {
                    lemma_alts_view(before, before.len() as int);
                    lemma_alts_view(out@, out@.len() as int);
                    assert(alts_of(out@) =~= alts_of(before).push(a[i as int]));
                }
            }
            i += 1;
        }
        assert(a.take(alts.len() as int) =~= a);
        rank += 1;
    }
    out
}

} // verus!
