use vstd::prelude::*;
use vstd::seq_lib::seq_to_set_is_finite;
use vstd::set_lib::lemma_len_subset;

use crate::merge::{
    absorb, absorb_all, kind_rank, add_examples, dropped_example, find_key, merge, merged_fields, right_only_fields,
    MAX_EXAMPLES,
};
use crate::parser::{parse_array_at, parse_at, parse_elements, parse_members, parse_object_at, key_name};
use crate::schema::{token_schema, Schema};
use crate::token::Token;

verus! {

/// The examples of a scalar schema.
pub open spec fn examples_of(s: Schema) -> Seq<Seq<char>> {
    match s {
        Schema::Str(e, _) => e,
        Schema::Num(e, _) => e,
        _ => Seq::empty(),
    }
}

/// Whether a scalar schema has lost examples to the cap.
pub open spec fn truncated_of(s: Schema) -> bool {
    match s {
        Schema::Str(_, t) => t,
        Schema::Num(_, t) => t,
        _ => false,
    }
}

pub(crate) proof fn lemma_add_examples(e1: Seq<Seq<char>>, e2: Seq<Seq<char>>, n: int)
    requires
        0 <= n <= e2.len(),
    ensures
        e1.len() <= MAX_EXAMPLES ==> add_examples(e1, e2, n).len() <= MAX_EXAMPLES,
        add_examples(e1, e2, n).len() >= e1.len(),
        add_examples(e1, e2, n).subrange(0, e1.len() as int) == e1,
        !dropped_example(e1, e2, n) ==> forall|j: int|
            0 <= j < n ==> add_examples(e1, e2, n).contains(#[trigger] e2[j]),
    decreases n,
{
    if n > 0 {
        lemma_add_examples(e1, e2, n - 1);
        let acc = add_examples(e1, e2, n - 1);
        let r = add_examples(e1, e2, n);
        assert(r.subrange(0, e1.len() as int) =~= acc.subrange(0, e1.len() as int));
        if !dropped_example(e1, e2, n) {
            assert forall|j: int| 0 <= j < n implies r.contains(#[trigger] e2[j]) by {
                if j < n - 1 {
                    let w = choose|w: int| 0 <= w < acc.len() && acc[w] == e2[j];
                    assert(r[w] == e2[j]);
                } else if !acc.contains(e2[j]) {
                    assert(r[acc.len() as int] == e2[j]);
                }
            }
        }
    }
}

/// Merging two scalars of one kind keeps at most four examples and every example of the left
/// side; a truncation mark of either side stays, and one is set once the two sides have more
/// than four distinct literals between them.
pub proof fn lemma_examples_capped(a: Schema, b: Schema)
    requires
        (a is Str && b is Str) || (a is Num && b is Num),
        examples_of(a).len() <= MAX_EXAMPLES,
    ensures
        merge(a, b) is Some,
        examples_of(merge(a, b)->0).len() <= MAX_EXAMPLES,
        examples_of(merge(a, b)->0).subrange(0, examples_of(a).len() as int) == examples_of(a),
        truncated_of(a) || truncated_of(b) ==> truncated_of(merge(a, b)->0),
        (examples_of(a) + examples_of(b)).to_set().len() > MAX_EXAMPLES ==> truncated_of(
            merge(a, b)->0,
        ),
{
    let e1 = examples_of(a);
    let e2 = examples_of(b);
    let n = e2.len() as int;
    lemma_add_examples(e1, e2, n);
    let r = add_examples(e1, e2, n);
    if !dropped_example(e1, e2, n) {
        assert((e1 + e2).to_set().subset_of(r.to_set())) by {
            assert forall|x: Seq<char>| (e1 + e2).to_set().contains(x) implies r.to_set().contains(x) by {
                let w = choose|w: int| 0 <= w < (e1 + e2).len() && (e1 + e2)[w] == x;
                if w < e1.len() {
                    assert(r.subrange(0, e1.len() as int)[w] == x);
                    assert(r[w] == x);
                } else {
                    assert(e2[w - e1.len()] == x);
                }
            }
        }
        r.lemma_cardinality_of_set();
        lemma_len_subset((e1 + e2).to_set(), r.to_set());
    }
}

/// Merging two arrays gives the range from the smaller minimum to the larger maximum.
pub proof fn lemma_array_range(a: Schema, b: Schema)
    requires
        a is Arr,
        b is Arr,
    ensures
        merge(a, b) matches Some(Schema::Arr(_, lo, hi)) && lo == (if a->Arr_1 <= b->Arr_1 {
            a->Arr_1
        } else {
            b->Arr_1
        }) && hi == (if a->Arr_2 >= b->Arr_2 {
            a->Arr_2
        } else {
            b->Arr_2
        }),
{
}

pub(crate) proof fn lemma_find_key(fs: Seq<(Seq<char>, Seq<Schema>, bool)>, k: Seq<char>, i: int)
    requires
        0 <= i,
    ensures
        find_key(fs, k, i) matches Some(j) ==> i <= j < fs.len() && fs[j].0 == k && forall|m: int|
            i <= m < j ==> (#[trigger] fs[m]).0 != k,
        find_key(fs, k, i) is None ==> forall|m: int| i <= m < fs.len() ==> (#[trigger] fs[m]).0 != k,
    decreases fs.len() - i,
{
    if i < fs.len() && fs[i].0 != k {
        lemma_find_key(fs, k, i + 1);
    }
}

pub(crate) proof fn lemma_merged_fields(
    f1: Seq<(Seq<char>, Seq<Schema>, bool)>,
    f2: Seq<(Seq<char>, Seq<Schema>, bool)>,
    n: int,
)
    requires
        0 <= n <= f1.len(),
    ensures
        merged_fields(f1, f2, n).len() == n,
        forall|i: int|
            0 <= i < n ==> (#[trigger] merged_fields(f1, f2, n)[i]).0 == f1[i].0 && merged_fields(
                f1,
                f2,
                n,
            )[i].2 == match find_key(f2, f1[i].0, 0) {
                Some(j) => f1[i].2 || f2[j].2,
                None => true,
            } && merged_fields(f1, f2, n)[i].1 == match find_key(f2, f1[i].0, 0) {
                Some(j) => absorb_all(f1[i].1, f2[j].1, f2[j].1.len() as int),
                None => f1[i].1,
            },
    decreases n,
{
    if n > 0 {
        lemma_merged_fields(f1, f2, n - 1);
        lemma_find_key(f2, f1[n - 1].0, 0);
    }
}

pub(crate) proof fn lemma_right_only_fields(
    f1: Seq<(Seq<char>, Seq<Schema>, bool)>,
    f2: Seq<(Seq<char>, Seq<Schema>, bool)>,
    n: int,
)
    requires
        0 <= n <= f2.len(),
    ensures
        forall|i: int|
            0 <= i < right_only_fields(f1, f2, n).len() ==> (#[trigger] right_only_fields(
                f1,
                f2,
                n,
            )[i]).2 && find_key(f1, right_only_fields(f1, f2, n)[i].0, 0) is None && exists|j: int|
                0 <= j < n && right_only_fields(f1, f2, n)[i] == ((#[trigger] f2[j]).0, f2[j].1, true),
        forall|j: int|
            0 <= j < n && find_key(f1, (#[trigger] f2[j]).0, 0) is None ==> exists|i: int|
                0 <= i < right_only_fields(f1, f2, n).len() && (#[trigger] right_only_fields(
                    f1,
                    f2,
                    n,
                )[i]).0 == f2[j].0,
    decreases n,
{
    if n > 0 {
        lemma_right_only_fields(f1, f2, n - 1);
        let prev = right_only_fields(f1, f2, n - 1);
        let r = right_only_fields(f1, f2, n);
        assert forall|i: int| 0 <= i < r.len() implies exists|j: int|
            0 <= j < n && #[trigger] r[i] == ((#[trigger] f2[j]).0, f2[j].1, true) by {
            if i < prev.len() {
                assert(r[i] == prev[i]);
                let j = choose|j: int| 0 <= j < n - 1 && prev[i] == ((#[trigger] f2[j]).0, f2[j].1, true);
                assert(r[i] == (f2[j].0, f2[j].1, true));
            } else {
                assert(r[i] == (f2[n - 1].0, f2[n - 1].1, true));
            }
        }
        assert forall|j: int|
            0 <= j < n && find_key(f1, (#[trigger] f2[j]).0, 0) is None implies exists|i: int|
                0 <= i < r.len() && (#[trigger] r[i]).0 == f2[j].0 by {
            if j < n - 1 {
                let i = choose|i: int| 0 <= i < prev.len() && (#[trigger] prev[i]).0 == f2[j].0;
                assert(r[i] == prev[i]);
            } else {
                assert(r[prev.len() as int].0 == f2[j].0);
            }
        }
    }
}

/// In the merge of two objects, a key that only one side has is optional; a key that both
/// sides have is optional exactly when it was optional on either side; a key that neither
/// side has is absent. Each side's field is the first of that name.
pub proof fn lemma_key_presence(
    f1: Seq<(Seq<char>, Seq<Schema>, bool)>,
    f2: Seq<(Seq<char>, Seq<Schema>, bool)>,
    k: Seq<char>,
)
    ensures
        merge(Schema::Obj(f1), Schema::Obj(f2)) matches Some(Schema::Obj(m)) && {
            &&& (find_key(f1, k, 0) is Some) != (find_key(f2, k, 0) is Some) ==> (find_key(
                m,
                k,
                0,
            ) matches Some(i) && m[i].2)
            &&& (find_key(f1, k, 0) matches Some(i) ==> (find_key(f2, k, 0) matches Some(j)
                ==> find_key(m, k, 0) == Some(i) && m[i].2 == (f1[i].2 || f2[j].2)))
            &&& find_key(f1, k, 0) is None && find_key(f2, k, 0) is None ==> find_key(
                m,
                k,
                0,
            ) is None
        },
{
    let left = merged_fields(f1, f2, f1.len() as int);
    let right = right_only_fields(f1, f2, f2.len() as int);
    let m = left + right;
    lemma_merged_fields(f1, f2, f1.len() as int);
    lemma_right_only_fields(f1, f2, f2.len() as int);
    lemma_find_key(f1, k, 0);
    lemma_find_key(f2, k, 0);
    lemma_find_key(m, k, 0);
    assert(merge(Schema::Obj(f1), Schema::Obj(f2)) == Some(Schema::Obj(m)));
    match find_key(f1, k, 0) {
        Some(i) => {
            assert(m[i] == left[i]);
            assert forall|p: int| 0 <= p < i implies (#[trigger] m[p]).0 != k by {
                assert(m[p] == left[p]);
            }
            match find_key(m, k, 0) {
                Some(q) => {
                    if q < i {
                        assert(m[q] == left[q]);
                    }
                    if q > i {
                        assert(m[i].0 == k);
                    }
                    assert(q == i);
                },
                None => {
                    assert(m[i].0 == k);
                },
            }
            assert(find_key(m, k, 0) == Some(i));
            assert(m[i].2 == match find_key(f2, k, 0) {
                Some(j) => f1[i].2 || f2[j].2,
                None => true,
            });
        },
        None => {
            if let Some(j) = find_key(f2, k, 0) {
                let w = choose|w: int| 0 <= w < right.len() && (#[trigger] right[w]).0 == f2[j].0;
                assert(m[left.len() + w] == right[w]);
                assert(m[left.len() + w].0 == k);
            }
            match find_key(m, k, 0) {
                Some(q) => {
                    if q < left.len() {
                        assert(m[q] == left[q]);
                        assert(false);
                    } else {
                        assert(m[q] == right[q - left.len()]);
                        let j = choose|j: int|
                            0 <= j < f2.len() && right[q - left.len()] == ((#[trigger] f2[j]).0, f2[j].1, true);
                        assert(f2[j].0 == k);
                    }
                },
                None => {},
            }
            assert(find_key(f2, k, 0) is Some ==> (find_key(m, k, 0) matches Some(i) && m[i].2));
        },
    }
}

/// Well-formedness of a schema: examples are distinct and at most four, the alternatives of a
/// position have distinct kinds, the keys of an object are distinct, and an array's minimum
/// length is at most its maximum.
pub open spec fn wf(s: Schema) -> bool
    decreases s,
{
    match s {
        Schema::Str(e, _) => e.no_duplicates() && e.len() <= MAX_EXAMPLES,
        Schema::Num(e, _) => e.no_duplicates() && e.len() <= MAX_EXAMPLES,
        Schema::Bool => true,
        Schema::Null => true,
        Schema::Obj(fs) => {
            &&& distinct_keys(fs)
            &&& forall|i: int| 0 <= i < fs.len() ==> distinct_kinds((#[trigger] fs[i]).1)
            &&& forall|i: int, j: int| 0 <= i < fs.len() && 0 <= j < fs[i].1.len() ==> wf(#[trigger] fs[i].1[j])
        },
        Schema::Arr(alts, lo, hi) => {
            &&& lo <= hi
            &&& distinct_kinds(alts)
            &&& forall|i: int| 0 <= i < alts.len() ==> wf(#[trigger] alts[i])
        },
    }
}

/// No two fields have the same key.
pub open spec fn distinct_keys(fs: Seq<(Seq<char>, Seq<Schema>, bool)>) -> bool {
    forall|i: int, j: int| 0 <= i < j < fs.len() ==> (#[trigger] fs[i]).0 != (#[trigger] fs[j]).0
}

/// No two alternatives are of the same kind.
pub open spec fn distinct_kinds(alts: Seq<Schema>) -> bool {
    forall|i: int, j: int| 0 <= i < j < alts.len() ==> kind_rank(#[trigger] alts[i]) != kind_rank(#[trigger] alts[j])
}

pub(crate) proof fn lemma_merge_some_iff_same_kind(a: Schema, b: Schema)
    ensures
        merge(a, b) is Some <==> kind_rank(a) == kind_rank(b),
{
}

pub(crate) proof fn lemma_add_examples_present(e1: Seq<Seq<char>>, e2: Seq<Seq<char>>, n: int)
    requires
        0 <= n <= e2.len(),
        forall|j: int| 0 <= j < n ==> e1.contains(#[trigger] e2[j]),
    ensures
        add_examples(e1, e2, n) == e1,
        !dropped_example(e1, e2, n),
    decreases n,
{
    if n > 0 {
        lemma_add_examples_present(e1, e2, n - 1);
    }
}

pub(crate) proof fn lemma_absorb_skips(acc: Seq<Schema>, x: Schema, i: int, j: int)
    requires
        0 <= i <= j <= acc.len(),
        forall|k: int| i <= k < j ==> merge(#[trigger] acc[k], x) is None,
    ensures
        absorb(acc, x, i) == absorb(acc, x, j),
    decreases j - i,
{
    if i < j {
        lemma_absorb_skips(acc, x, i + 1, j);
    }
}

pub(crate) proof fn lemma_absorb_all_self(alts: Seq<Schema>, n: int)
    requires
        0 <= n <= alts.len(),
        distinct_kinds(alts),
        forall|i: int| 0 <= i < alts.len() ==> wf(#[trigger] alts[i]),
    ensures
        absorb_all(alts, alts, n) == alts,
    decreases alts, n,
{
    if n > 0 {
        lemma_absorb_all_self(alts, n - 1);
        let x = alts[n - 1];
        assert forall|k: int| 0 <= k < n - 1 implies merge(#[trigger] alts[k], x) is None by {
            lemma_merge_some_iff_same_kind(alts[k], x);
        }
        lemma_absorb_skips(alts, x, 0, n - 1);
        lemma_merge_self(x);
        assert(alts.update(n - 1, x) =~= alts);
    }
}

/// Merging a well-formed schema with itself gives it back unchanged, flags included.
pub proof fn lemma_merge_self(s: Schema)
    requires
        wf(s),
    ensures
        merge(s, s) == Some(s),
    decreases s,
{
    match s {
        Schema::Str(e, _) => {
            assert forall|j: int| 0 <= j < e.len() implies e.contains(#[trigger] e[j]) by {}
            lemma_add_examples_present(e, e, e.len() as int);
        },
        Schema::Num(e, _) => {
            assert forall|j: int| 0 <= j < e.len() implies e.contains(#[trigger] e[j]) by {}
            lemma_add_examples_present(e, e, e.len() as int);
        },
        Schema::Obj(fs) => {
            lemma_merged_fields_self(fs, fs.len() as int);
            lemma_right_only_self(fs, fs.len() as int);
            assert(merged_fields(fs, fs, fs.len() as int) + right_only_fields(fs, fs, fs.len() as int) =~= fs);
        },
        Schema::Arr(alts, _, _) => {
            lemma_absorb_all_self(alts, alts.len() as int);
        },
        _ => {},
    }
}

pub(crate) proof fn lemma_find_unique(fs: Seq<(Seq<char>, Seq<Schema>, bool)>, i: int)
    requires
        0 <= i < fs.len(),
        distinct_keys(fs),
    ensures
        find_key(fs, fs[i].0, 0) == Some(i),
{
    lemma_find_key(fs, fs[i].0, 0);
    match find_key(fs, fs[i].0, 0) {
        Some(j) => {
            if j < i {
                assert(fs[j].0 != fs[i].0);
            }
        },
        None => {},
    }
}

pub(crate) proof fn lemma_merged_fields_self(fs: Seq<(Seq<char>, Seq<Schema>, bool)>, n: int)
    requires
        0 <= n <= fs.len(),
        distinct_keys(fs),
        forall|i: int| 0 <= i < fs.len() ==> distinct_kinds((#[trigger] fs[i]).1),
        forall|i: int, j: int| 0 <= i < fs.len() && 0 <= j < fs[i].1.len() ==> wf(#[trigger] fs[i].1[j]),
    ensures
        merged_fields(fs, fs, n) == fs.subrange(0, n),
    decreases fs, n,
{
    if n > 0 {
        lemma_merged_fields_self(fs, n - 1);
        lemma_find_unique(fs, n - 1);
        let alts = fs[n - 1].1;
        assert(decreases_to!(fs => fs[n - 1]));
        assert forall|i: int| 0 <= i < alts.len() implies wf(#[trigger] alts[i]) by {
            assert(wf(fs[n - 1].1[i]));
        }
        assert(distinct_kinds(fs[n - 1].1));
        lemma_absorb_all_self(alts, alts.len() as int);
        assert(fs.subrange(0, n - 1).push(fs[n - 1]) =~= fs.subrange(0, n));
    }
}

pub(crate) proof fn lemma_right_only_self(fs: Seq<(Seq<char>, Seq<Schema>, bool)>, n: int)
    requires
        0 <= n <= fs.len(),
        distinct_keys(fs),
        forall|i: int| 0 <= i < fs.len() ==> distinct_kinds((#[trigger] fs[i]).1),
        forall|i: int, j: int| 0 <= i < fs.len() && 0 <= j < fs[i].1.len() ==> wf(#[trigger] fs[i].1[j]),
    ensures
        right_only_fields(fs, fs, n) == Seq::<(Seq<char>, Seq<Schema>, bool)>::empty(),
    decreases n,
{
    if n > 0 {
        lemma_right_only_self(fs, n - 1);
        lemma_find_unique(fs, n - 1);
    }
}

pub(crate) proof fn lemma_add_examples_distinct(e1: Seq<Seq<char>>, e2: Seq<Seq<char>>, n: int)
    requires
        0 <= n <= e2.len(),
        e1.no_duplicates(),
    ensures
        add_examples(e1, e2, n).no_duplicates(),
    decreases n,
{
    if n > 0 {
        lemma_add_examples_distinct(e1, e2, n - 1);
    }
}

pub(crate) proof fn lemma_absorb_wf(acc: Seq<Schema>, x: Schema, i: int)
    requires
        0 <= i <= acc.len(),
        distinct_kinds(acc),
        forall|k: int| 0 <= k < acc.len() ==> wf(#[trigger] acc[k]),
        wf(x),
        forall|k: int| 0 <= k < i ==> kind_rank(#[trigger] acc[k]) != kind_rank(x),
    ensures
        distinct_kinds(absorb(acc, x, i)),
        forall|k: int| 0 <= k < absorb(acc, x, i).len() ==> wf(#[trigger] absorb(acc, x, i)[k]),
    decreases x, 1int, acc.len() - i,
{
    if i < acc.len() {
        lemma_merge_some_iff_same_kind(acc[i], x);
        match merge(acc[i], x) {
            Some(m) => {
                lemma_merge_wf(acc[i], x);
                let r = acc.update(i, m);
                assert forall|a: int, b: int| 0 <= a < b < r.len() implies kind_rank(#[trigger] r[a]) != kind_rank(#[trigger] r[b]) by {
                    assert(kind_rank(acc[a]) != kind_rank(acc[b]));
                }
            },
            None => {
                lemma_absorb_wf(acc, x, i + 1);
            },
        }
    } else {
        let r = acc.push(x);
        assert forall|a: int, b: int| 0 <= a < b < r.len() implies kind_rank(#[trigger] r[a]) != kind_rank(#[trigger] r[b]) by {
            if b < acc.len() {
                assert(kind_rank(acc[a]) != kind_rank(acc[b]));
            } else {
                assert(kind_rank(acc[a]) != kind_rank(x));
            }
        }
    }
}

pub(crate) proof fn lemma_absorb_all_wf(acc: Seq<Schema>, xs: Seq<Schema>, n: int)
    requires
        0 <= n <= xs.len(),
        distinct_kinds(acc),
        forall|k: int| 0 <= k < acc.len() ==> wf(#[trigger] acc[k]),
        forall|k: int| 0 <= k < xs.len() ==> wf(#[trigger] xs[k]),
    ensures
        distinct_kinds(absorb_all(acc, xs, n)),
        forall|k: int| 0 <= k < absorb_all(acc, xs, n).len() ==> wf(#[trigger] absorb_all(acc, xs, n)[k]),
    decreases xs, 2int, n,
{
    if n > 0 {
        lemma_absorb_all_wf(acc, xs, n - 1);
        assert(decreases_to!(xs => xs[n - 1]));
        lemma_absorb_wf(absorb_all(acc, xs, n - 1), xs[n - 1], 0);
    }
}

pub(crate) proof fn lemma_right_only_distinct(
    f1: Seq<(Seq<char>, Seq<Schema>, bool)>,
    f2: Seq<(Seq<char>, Seq<Schema>, bool)>,
    n: int,
)
    requires
        0 <= n <= f2.len(),
        distinct_keys(f2),
    ensures
        distinct_keys(right_only_fields(f1, f2, n)),
    decreases n,
{
    if n > 0 {
        lemma_right_only_distinct(f1, f2, n - 1);
        lemma_right_only_fields(f1, f2, n - 1);
        let prev = right_only_fields(f1, f2, n - 1);
        let r = right_only_fields(f1, f2, n);
        assert forall|a: int, b: int| 0 <= a < b < r.len() implies (#[trigger] r[a]).0 != (#[trigger] r[b]).0 by {
            if b < prev.len() {
                assert(r[a] == prev[a] && r[b] == prev[b]);
            } else {
                assert(r[a] == prev[a]);
                let j = choose|j: int| 0 <= j < n - 1 && prev[a] == ((#[trigger] f2[j]).0, f2[j].1, true);
                assert(f2[j].0 != f2[n - 1].0);
            }
        }
    }
}

pub(crate) proof fn lemma_merged_object_wf(
    f1: Seq<(Seq<char>, Seq<Schema>, bool)>,
    f2: Seq<(Seq<char>, Seq<Schema>, bool)>,
)
    requires
        wf(Schema::Obj(f1)),
        wf(Schema::Obj(f2)),
    ensures
        wf(merge(Schema::Obj(f1), Schema::Obj(f2))->0),
    decreases f2, 3int, 0int,
{
    let left = merged_fields(f1, f2, f1.len() as int);
    let right = right_only_fields(f1, f2, f2.len() as int);
    let m = left + right;
    lemma_merged_fields(f1, f2, f1.len() as int);
    lemma_right_only_fields(f1, f2, f2.len() as int);
    lemma_right_only_distinct(f1, f2, f2.len() as int);
    assert forall|i: int| 0 <= i < m.len() implies distinct_kinds((#[trigger] m[i]).1) && forall|j: int|
        0 <= j < m[i].1.len() ==> wf(#[trigger] m[i].1[j]) by {
        if i < left.len() {
            assert(m[i] == left[i]);
            lemma_find_key(f2, f1[i].0, 0);
            match find_key(f2, f1[i].0, 0) {
                Some(j) => {
                    assert(decreases_to!(f2 => f2[j]));
                    assert forall|k: int| 0 <= k < f1[i].1.len() implies wf(#[trigger] f1[i].1[k]) by {}
                    assert forall|k: int| 0 <= k < f2[j].1.len() implies wf(#[trigger] f2[j].1[k]) by {}
                    lemma_absorb_all_wf(f1[i].1, f2[j].1, f2[j].1.len() as int);
                },
                None => {},
            }
        } else {
            assert(m[i] == right[i - left.len()]);
            let j = choose|j: int|
                0 <= j < f2.len() && right[i - left.len()] == ((#[trigger] f2[j]).0, f2[j].1, true);
            assert(m[i].1 == f2[j].1);
        }
    }
    assert forall|a: int, b: int| 0 <= a < b < m.len() implies (#[trigger] m[a]).0 != (#[trigger] m[b]).0 by {
        if b < left.len() {
            assert(m[a] == left[a] && m[b] == left[b]);
        } else if a >= left.len() {
            assert(m[a] == right[a - left.len()] && m[b] == right[b - left.len()]);
        } else {
            assert(m[a] == left[a] && m[b] == right[b - left.len()]);
            lemma_find_key(f1, right[b - left.len()].0, 0);
        }
    }
    assert forall|i: int, j: int| 0 <= i < m.len() && 0 <= j < m[i].1.len() implies wf(#[trigger] m[i].1[j]) by {
        assert(distinct_kinds(m[i].1) && forall|j: int| 0 <= j < m[i].1.len() ==> wf(#[trigger] m[i].1[j]));
    }
}

/// Merging keeps well-formedness, and the merge of two schemas keeps the kind of the first.
pub proof fn lemma_merge_wf(a: Schema, b: Schema)
    requires
        wf(a),
        wf(b),
    ensures
        merge(a, b) matches Some(m) ==> wf(m) && kind_rank(m) == kind_rank(a),
    decreases b, 0int, 0int,
{
    match (a, b) {
        (Schema::Str(e1, _), Schema::Str(e2, _)) => {
            lemma_add_examples(e1, e2, e2.len() as int);
            lemma_add_examples_distinct(e1, e2, e2.len() as int);
        },
        (Schema::Num(e1, _), Schema::Num(e2, _)) => {
            lemma_add_examples(e1, e2, e2.len() as int);
            lemma_add_examples_distinct(e1, e2, e2.len() as int);
        },
        (Schema::Obj(f1), Schema::Obj(f2)) => {
            lemma_merged_object_wf(f1, f2);
        },
        (Schema::Arr(a1, _, _), Schema::Arr(a2, _, _)) => {
            lemma_absorb_all_wf(a1, a2, a2.len() as int);
        },
        _ => {},
    }
}

/// Every schema that parsing gives is well-formed.
pub proof fn lemma_parse_wf(ts: Seq<Token>, pos: int)
    ensures
        parse_at(ts, pos) matches Ok((s, _)) ==> wf(s),
    decreases ts.len() - pos, 0int,
{
    if 0 <= pos < ts.len() {
        match ts[pos] {
            Token::CurlyOpen => lemma_object_wf(ts, pos + 1),
            Token::BracketOpen => lemma_array_wf(ts, pos + 1),
            Token::String(t) => assert(seq![t@].no_duplicates()),
            Token::Number(t) => assert(seq![t@].no_duplicates()),
            _ => {},
        }
    }
}

pub(crate) proof fn lemma_object_wf(ts: Seq<Token>, pos: int)
    ensures
        parse_object_at(ts, pos) matches Ok((s, _)) ==> wf(s),
    decreases ts.len() - pos, 2int,
{
    if !(0 <= pos < ts.len() && ts[pos] is CurlyClose) {
        lemma_members_wf(ts, pos, Seq::empty());
    }
}

pub(crate) proof fn lemma_members_wf(ts: Seq<Token>, pos: int, acc: Seq<(Seq<char>, Seq<Schema>, bool)>)
    requires
        distinct_keys(acc),
        forall|i: int| 0 <= i < acc.len() ==> distinct_kinds((#[trigger] acc[i]).1),
        forall|i: int, j: int| 0 <= i < acc.len() && 0 <= j < acc[i].1.len() ==> wf(#[trigger] acc[i].1[j]),
    ensures
        parse_members(ts, pos, acc) matches Ok((s, _)) ==> wf(s),
    decreases ts.len() - pos, 1int,
{
    if 0 <= pos < ts.len() && pos + 1 < ts.len() {
        if let Token::String(k) = ts[pos] {
            let key = key_name(k@);
            if k@.len() >= 2 && find_key(acc, key, 0) is None && ts[pos + 1] is Colon {
                lemma_parse_wf(ts, pos + 2);
                if let Ok((v, p)) = parse_at(ts, pos + 2) {
                    if pos < p < ts.len() {
                        let acc2 = acc.push((key, seq![v], false));
                        lemma_find_key(acc, key, 0);
                        assert forall|a: int, b: int| 0 <= a < b < acc2.len() implies (#[trigger] acc2[a]).0 != (#[trigger] acc2[b]).0 by {
                            if b < acc.len() {
                                assert(acc2[a] == acc[a] && acc2[b] == acc[b]);
                            } else {
                                assert(acc2[a] == acc[a]);
                            }
                        }
                        assert forall|i: int| 0 <= i < acc2.len() implies distinct_kinds((#[trigger] acc2[i]).1) by {
                            if i < acc.len() {
                                assert(acc2[i] == acc[i]);
                            }
                        }
                        assert forall|i: int, j: int| 0 <= i < acc2.len() && 0 <= j < acc2[i].1.len() implies wf(#[trigger] acc2[i].1[j]) by {
                            if i < acc.len() {
                                assert(acc2[i] == acc[i]);
                            }
                        }
                        if ts[p] is Comma {
                            lemma_members_wf(ts, p + 1, acc2);
                        }
                    }
                }
            }
        }
    }
}

pub(crate) proof fn lemma_array_wf(ts: Seq<Token>, pos: int)
    ensures
        parse_array_at(ts, pos) matches Ok((s, _)) ==> wf(s),
    decreases ts.len() - pos, 2int,
{
    if !(0 <= pos < ts.len() && ts[pos] is BracketClose) {
        lemma_elements_wf(ts, pos, Seq::empty(), 0);
    }
}

pub(crate) proof fn lemma_elements_wf(ts: Seq<Token>, pos: int, alts: Seq<Schema>, n: nat)
    requires
        distinct_kinds(alts),
        forall|k: int| 0 <= k < alts.len() ==> wf(#[trigger] alts[k]),
    ensures
        parse_elements(ts, pos, alts, n) matches Ok((s, _)) ==> wf(s),
    decreases ts.len() - pos, 1int,
{
    if 0 <= pos < ts.len() {
        lemma_parse_wf(ts, pos);
        if let Ok((v, p)) = parse_at(ts, pos) {
            if pos < p < ts.len() {
                lemma_absorb_wf(alts, v, 0);
                if ts[p] is Comma {
                    lemma_elements_wf(ts, p + 1, absorb(alts, v, 0), n + 1);
                }
            }
        }
    }
}

pub(crate) proof fn lemma_add_examples_within(e1: Seq<Seq<char>>, e2: Seq<Seq<char>>, n: int)
    requires
        0 <= n <= e2.len(),
    ensures
        forall|x: Seq<char>| add_examples(e1, e2, n).contains(x) ==> (e1 + e2).contains(x),
    decreases n,
{
    if n > 0 {
        lemma_add_examples_within(e1, e2, n - 1);
        let acc = add_examples(e1, e2, n - 1);
        assert((e1 + e2)[e1.len() + n - 1] == e2[n - 1]);
        assert forall|x: Seq<char>| add_examples(e1, e2, n).contains(x) implies (e1 + e2).contains(x) by {
            if acc.contains(x) {
            } else {
                assert(x == e2[n - 1]);
            }
        }
    } else {
        assert forall|x: Seq<char>| e1.contains(x) implies (e1 + e2).contains(x) by {
            let w = choose|w: int| 0 <= w < e1.len() && e1[w] == x;
            assert((e1 + e2)[w] == x);
        }
    }
}

pub(crate) proof fn lemma_dropped_means_many(e1: Seq<Seq<char>>, e2: Seq<Seq<char>>, n: int)
    requires
        0 <= n <= e2.len(),
        e1.no_duplicates(),
    ensures
        dropped_example(e1, e2, n) ==> (e1 + e2).to_set().len() > MAX_EXAMPLES,
    decreases n,
{
    if n > 0 {
        lemma_dropped_means_many(e1, e2, n - 1);
        let acc = add_examples(e1, e2, n - 1);
        let x = e2[n - 1];
        if !dropped_example(e1, e2, n - 1) && !acc.contains(x) && acc.len() >= MAX_EXAMPLES {
            lemma_add_examples_distinct(e1, e2, n - 1);
            lemma_add_examples_within(e1, e2, n - 1);
            acc.unique_seq_to_set();
            let small = acc.to_set().insert(x);
            let all = (e1 + e2).to_set();
            seq_to_set_is_finite(acc);
            seq_to_set_is_finite(e1 + e2);
            assert((e1 + e2)[e1.len() + n - 1] == x);
            assert(small.subset_of(all));
            lemma_len_subset(small, all);
        }
    }
}

/// The truncation mark of a scalar merge is set exactly when a side was already truncated or
/// the two sides hold more than four distinct literals between them.
pub proof fn lemma_truncation_exact(a: Schema, b: Schema)
    requires
        (a is Str && b is Str) || (a is Num && b is Num),
        wf(a),
    ensures
        truncated_of(merge(a, b)->0) == (truncated_of(a) || truncated_of(b) || (examples_of(a)
            + examples_of(b)).to_set().len() > MAX_EXAMPLES),
{
    lemma_examples_capped(a, b);
    lemma_dropped_means_many(examples_of(a), examples_of(b), examples_of(b).len() as int);
}

/// Merging in either order agrees at the top level: both succeed or both fail; scalars get
/// the same truncation mark and, below the cap, the same set of examples; arrays get the same
/// length range; objects hold the same keys, each optional in one order exactly when it is in
/// the other.
pub proof fn lemma_merge_symmetric_top(a: Schema, b: Schema, k: Seq<char>)
    requires
        wf(a),
        wf(b),
    ensures
        merge(a, b) is Some <==> merge(b, a) is Some,
        (a is Str && b is Str) || (a is Num && b is Num) ==> {
            &&& truncated_of(merge(a, b)->0) == truncated_of(merge(b, a)->0)
            &&& (examples_of(a) + examples_of(b)).to_set().len() <= MAX_EXAMPLES ==> examples_of(
                merge(a, b)->0,
            ).to_set() == examples_of(merge(b, a)->0).to_set()
        },
        a is Arr && b is Arr ==> (merge(a, b)->0)->Arr_1 == (merge(b, a)->0)->Arr_1 && (merge(
            a,
            b,
        )->0)->Arr_2 == (merge(b, a)->0)->Arr_2,
        a is Obj && b is Obj ==> {
            let m1 = (merge(a, b)->0)->Obj_0;
            let m2 = (merge(b, a)->0)->Obj_0;
            &&& (find_key(m1, k, 0) is Some <==> find_key(m2, k, 0) is Some)
            &&& (find_key(m1, k, 0) matches Some(i) ==> (find_key(m2, k, 0) matches Some(j)
                ==> m1[i].2 == m2[j].2))
        },
{
    lemma_merge_some_iff_same_kind(a, b);
    lemma_merge_some_iff_same_kind(b, a);
    if (a is Str && b is Str) || (a is Num && b is Num) {
        let e1 = examples_of(a);
        let e2 = examples_of(b);
        lemma_truncation_exact(a, b);
        lemma_truncation_exact(b, a);
        assert((e1 + e2).to_set() =~= (e2 + e1).to_set()) by {
            assert forall|x: Seq<char>| (e1 + e2).contains(x) <==> (e2 + e1).contains(x) by {
                if (e1 + e2).contains(x) {
                    let w = choose|w: int| 0 <= w < (e1 + e2).len() && (e1 + e2)[w] == x;
                    if w < e1.len() {
                        assert((e2 + e1)[e2.len() + w] == x);
                    } else {
                        assert((e2 + e1)[w - e1.len()] == x);
                    }
                }
                if (e2 + e1).contains(x) {
                    let w = choose|w: int| 0 <= w < (e2 + e1).len() && (e2 + e1)[w] == x;
                    if w < e2.len() {
                        assert((e1 + e2)[e1.len() + w] == x);
                    } else {
                        assert((e1 + e2)[w - e2.len()] == x);
                    }
                }
            }
        }
        if (e1 + e2).to_set().len() <= MAX_EXAMPLES {
            lemma_examples_capped(a, b);
            lemma_examples_capped(b, a);
            lemma_union_kept(e1, e2);
            lemma_union_kept(e2, e1);
        }
    }
    if a is Obj && b is Obj {
        let f1 = a->Obj_0;
        let f2 = b->Obj_0;
        lemma_key_presence(f1, f2, k);
        lemma_key_presence(f2, f1, k);
    }
}

pub(crate) proof fn lemma_union_kept(e1: Seq<Seq<char>>, e2: Seq<Seq<char>>)
    requires
        e1.len() <= MAX_EXAMPLES,
        e1.no_duplicates(),
        (e1 + e2).to_set().len() <= MAX_EXAMPLES,
    ensures
        add_examples(e1, e2, e2.len() as int).to_set() == (e1 + e2).to_set(),
{
    let n = e2.len() as int;
    let r = add_examples(e1, e2, n);
    lemma_add_examples(e1, e2, n);
    lemma_add_examples_within(e1, e2, n);
    lemma_dropped_means_many(e1, e2, n);
    assert forall|x: Seq<char>| (e1 + e2).contains(x) implies r.contains(x) by {
        let w = choose|w: int| 0 <= w < (e1 + e2).len() && (e1 + e2)[w] == x;
        if w < e1.len() {
            assert(r.subrange(0, e1.len() as int)[w] == x);
            assert(r[w] == x);
        } else {
            assert(e2[w - e1.len()] == x);
        }
    }
    assert(r.to_set() =~= (e1 + e2).to_set());
}

} // verus!
