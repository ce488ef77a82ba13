use vstd::prelude::*;

use crate::laws::{
    distinct_keys, distinct_kinds, lemma_absorb_all_wf, lemma_find_key, lemma_find_unique,
    lemma_key_presence, lemma_merge_symmetric_top, lemma_merge_wf, lemma_merged_fields,
    lemma_right_only_fields, wf,
};
use crate::merge::{
    absorb, absorb_all, find_key, kind_rank, merge, merged_fields, right_only_fields, MAX_EXAMPLES,
};
use crate::schema::Schema;

verus! {

/// Whether two schemas render alike: the same example sets and marks, the same length
/// ranges, the same keys with the same optionality, and alike alternatives kind by kind.
pub open spec fn same_shape(a: Schema, b: Schema) -> bool
    decreases a, 0int,
{
    match (a, b) {
        (Schema::Str(e1, t1), Schema::Str(e2, t2)) => e1.to_set() == e2.to_set() && t1 == t2,
        (Schema::Num(e1, t1), Schema::Num(e2, t2)) => e1.to_set() == e2.to_set() && t1 == t2,
        (Schema::Bool, Schema::Bool) => true,
        (Schema::Null, Schema::Null) => true,
        (Schema::Arr(x1, l1, h1), Schema::Arr(x2, l2, h2)) => l1 == l2 && h1 == h2 && same_alts(x1, x2),
        (Schema::Obj(f1), Schema::Obj(f2)) => same_fields(f1, f2),
        _ => false,
    }
}

/// Whether two lists of alternatives hold the same kinds, alike kind by kind.
pub open spec fn same_alts(x1: Seq<Schema>, x2: Seq<Schema>) -> bool
    decreases x1, 1int,
{
    &&& forall|i: int| 0 <= i < x1.len() ==> slot(x2, kind_rank(#[trigger] x1[i]), 0) is Some
    &&& forall|j: int| 0 <= j < x2.len() ==> slot(x1, kind_rank(#[trigger] x2[j]), 0) is Some
    &&& forall|i: int, j: int| 0 <= i < x1.len() && 0 <= j < x2.len() && kind_rank(x1[i]) == kind_rank(x2[j]) ==> same_shape(#[trigger] x1[i], #[trigger] x2[j])
}

/// Whether two lists of fields hold the same keys, each with the same optionality and alike
/// alternatives.
pub open spec fn same_fields(f1: Seq<(Seq<char>, Seq<Schema>, bool)>, f2: Seq<(Seq<char>, Seq<Schema>, bool)>) -> bool
    decreases f1, 1int,
{
    &&& forall|i: int| 0 <= i < f1.len() ==> find_key(f2, (#[trigger] f1[i]).0, 0) is Some
    &&& forall|j: int| 0 <= j < f2.len() ==> find_key(f1, (#[trigger] f2[j]).0, 0) is Some
    &&& forall|i: int, j: int| 0 <= i < f1.len() && 0 <= j < f2.len() && f1[i].0 == f2[j].0 ==> (#[trigger] f1[i]).2 == (#[trigger] f2[j]).2 && same_alts(f1[i].1, f2[j].1)
}

/// Whether merging `a` and `b` stays under the example cap everywhere: at every position
/// that both have, the two scalars hold at most four distinct literals between them.
pub open spec fn fits(a: Schema, b: Schema) -> bool
    decreases a,
{
    match (a, b) {
        (Schema::Str(e1, _), Schema::Str(e2, _)) => (e1 + e2).to_set().len() <= MAX_EXAMPLES,
        (Schema::Num(e1, _), Schema::Num(e2, _)) => (e1 + e2).to_set().len() <= MAX_EXAMPLES,
        (Schema::Arr(x1, _, _), Schema::Arr(x2, _, _)) => forall|i: int, j: int|
            0 <= i < x1.len() && 0 <= j < x2.len() ==> fits(#[trigger] x1[i], #[trigger] x2[j]),
        (Schema::Obj(f1), Schema::Obj(f2)) => forall|i: int, j: int, p: int, q: int|
            0 <= i < f1.len() && 0 <= j < f2.len() && f1[i].0 == f2[j].0 && 0 <= p < f1[i].1.len() && 0 <= q < f2[j].1.len()
                ==> fits(#[trigger] f1[i].1[p], #[trigger] f2[j].1[q]),
        _ => true,
    }
}

/// The index of the first alternative of rank `r` in `xs[i..]`, if any.
pub open spec fn slot(xs: Seq<Schema>, r: nat, i: int) -> Option<int>
    decreases xs.len() - i,
{
    if 0 <= i < xs.len() {
        if kind_rank(xs[i]) == r {
            Some(i)
        } else {
            slot(xs, r, i + 1)
        }
    } else {
        None
    }
}

proof fn lemma_slot(xs: Seq<Schema>, r: nat, i: int)
    requires
        0 <= i,
    ensures
        slot(xs, r, i) matches Some(j) ==> i <= j < xs.len() && kind_rank(xs[j]) == r,
        slot(xs, r, i) is None ==> forall|m: int| i <= m < xs.len() ==> kind_rank(#[trigger] xs[m]) != r,
    decreases xs.len() - i,
{
    if 0 <= i < xs.len() && kind_rank(xs[i]) != r {
        lemma_slot(xs, r, i + 1);
    }
}

/// The alternative of rank `r` in `xs`, if any.
pub open spec fn at_rank(xs: Seq<Schema>, r: nat) -> Option<Schema> {
    match slot(xs, r, 0) {
        Some(i) => Some(xs[i]),
        None => None,
    }
}

/// The alternative of rank `r` after absorbing the alternatives of `x2` into `x1`.
pub open spec fn joined(x1: Seq<Schema>, x2: Seq<Schema>, r: nat) -> Option<Schema> {
    match (at_rank(x1, r), at_rank(x2, r)) {
        (Some(p), Some(q)) => merge(p, q),
        (Some(p), None) => Some(p),
        (None, Some(q)) => Some(q),
        (None, None) => None,
    }
}

proof fn lemma_slot_same_ranks(xs: Seq<Schema>, ys: Seq<Schema>, r: nat, i: int)
    requires
        0 <= i,
        xs.len() == ys.len(),
        forall|k: int| 0 <= k < xs.len() ==> kind_rank(#[trigger] xs[k]) == kind_rank(ys[k]),
    ensures
        slot(xs, r, i) == slot(ys, r, i),
    decreases xs.len() - i,
{
    if i < xs.len() {
        lemma_slot_same_ranks(xs, ys, r, i + 1);
    }
}

proof fn lemma_slot_push(xs: Seq<Schema>, y: Schema, r: nat, i: int)
    requires
        0 <= i <= xs.len(),
    ensures
        slot(xs.push(y), r, i) == match slot(xs, r, i) {
            Some(j) => Some(j),
            None => if kind_rank(y) == r {
                Some(xs.len() as int)
            } else {
                None
            },
        },
    decreases xs.len() - i,
{
    if i < xs.len() {
        lemma_slot_push(xs, y, r, i + 1);
        assert(xs.push(y)[i] == xs[i]);
    } else {
        assert(xs.push(y)[i] == y);
        assert(slot(xs.push(y), r, i + 1) is None);
    }
}

/// In a list of distinct kinds, the alternative of a given rank is the one at its slot.
proof fn lemma_slot_unique(xs: Seq<Schema>, i: int)
    requires
        distinct_kinds(xs),
        0 <= i < xs.len(),
    ensures
        slot(xs, kind_rank(xs[i]), 0) == Some(i),
{
    lemma_slot(xs, kind_rank(xs[i]), 0);
    if let Some(j) = slot(xs, kind_rank(xs[i]), 0) {
        if j < i {
            assert(kind_rank(xs[j]) != kind_rank(xs[i]));
        }
    }
}

proof fn lemma_absorb_at_rank(acc: Seq<Schema>, x: Schema, r: nat)
    requires
        distinct_kinds(acc),
        forall|k: int| 0 <= k < acc.len() ==> wf(#[trigger] acc[k]),
        wf(x),
    ensures
        at_rank(absorb(acc, x, 0), r) == if kind_rank(x) == r {
            match at_rank(acc, r) {
                Some(p) => merge(p, x),
                None => Some(x),
            }
        } else {
            at_rank(acc, r)
        },
{
    let rx = kind_rank(x);
    lemma_slot(acc, rx, 0);
    match slot(acc, rx, 0) {
        Some(i) => {
            assert forall|k: int| 0 <= k < i implies merge(#[trigger] acc[k], x) is None by {
                crate::laws::lemma_merge_some_iff_same_kind(acc[k], x);
            }
            crate::laws::lemma_absorb_skips(acc, x, 0, i);
            crate::laws::lemma_merge_some_iff_same_kind(acc[i], x);
            lemma_merge_wf(acc[i], x);
            let m = merge(acc[i], x)->0;
            let res = acc.update(i, m);
            assert(absorb(acc, x, 0) == res);
            lemma_slot_same_ranks(res, acc, r, 0);
            lemma_slot(acc, r, 0);
        },
        None => {
            assert forall|k: int| 0 <= k < acc.len() implies merge(#[trigger] acc[k], x) is None by {
                crate::laws::lemma_merge_some_iff_same_kind(acc[k], x);
            }
            crate::laws::lemma_absorb_skips(acc, x, 0, acc.len() as int);
            assert(absorb(acc, x, 0) == acc.push(x));
            lemma_slot_push(acc, x, r, 0);
            lemma_slot(acc, r, 0);
        },
    }
}

proof fn lemma_absorb_all_at_rank(x1: Seq<Schema>, x2: Seq<Schema>, n: int, r: nat)
    requires
        0 <= n <= x2.len(),
        distinct_kinds(x1),
        distinct_kinds(x2),
        forall|k: int| 0 <= k < x1.len() ==> wf(#[trigger] x1[k]),
        forall|k: int| 0 <= k < x2.len() ==> wf(#[trigger] x2[k]),
    ensures
        at_rank(absorb_all(x1, x2, n), r) == joined(x1, x2.take(n), r),
    decreases n,
{
    if n == 0 {
        assert(slot(x2.take(0), r, 0) is None);
    } else {
        lemma_absorb_all_at_rank(x1, x2, n - 1, r);
        crate::laws::lemma_absorb_all_wf(x1, x2, n - 1);
        let acc = absorb_all(x1, x2, n - 1);
        let y = x2[n - 1];
        lemma_absorb_at_rank(acc, y, r);
        assert(x2.take(n) =~= x2.take(n - 1).push(y));
        lemma_slot_push(x2.take(n - 1), y, r, 0);
        lemma_slot(x2.take(n - 1), r, 0);
        if kind_rank(y) == r {
            if let Some(j) = slot(x2.take(n - 1), r, 0) {
                assert(x2.take(n - 1)[j] == x2[j]);
                assert(kind_rank(x2[j]) != kind_rank(x2[n - 1]));
            }
        }
    }
}

/// A well-formed schema renders like itself.
pub proof fn lemma_same_shape_refl(s: Schema)
    requires
        wf(s),
    ensures
        same_shape(s, s),
    decreases s, 0int,
{
    match s {
        Schema::Arr(xs, _, _) => {
            lemma_same_alts_refl(xs);
        },
        Schema::Obj(fs) => {
            assert forall|i: int| 0 <= i < fs.len() implies find_key(fs, (#[trigger] fs[i]).0, 0) is Some by {
                lemma_find_unique(fs, i);
            }
            assert forall|i: int, j: int| 0 <= i < fs.len() && 0 <= j < fs.len() && fs[i].0 == fs[j].0 implies (#[trigger] fs[i]).2 == (#[trigger] fs[j]).2 && same_alts(fs[i].1, fs[j].1) by {
                if i != j {
                    if i < j {
                        assert(fs[i].0 != fs[j].0);
                    } else {
                        assert(fs[j].0 != fs[i].0);
                    }
                }
                assert(decreases_to!(fs => fs[i]));
                assert(distinct_kinds(fs[i].1));
                assert forall|k: int| 0 <= k < fs[i].1.len() implies wf(#[trigger] fs[i].1[k]) by {}
                lemma_same_alts_refl(fs[i].1);
            }
        },
        _ => {},
    }
}

proof fn lemma_same_alts_refl(xs: Seq<Schema>)
    requires
        distinct_kinds(xs),
        forall|k: int| 0 <= k < xs.len() ==> wf(#[trigger] xs[k]),
    ensures
        same_alts(xs, xs),
    decreases xs, 1int,
{
    assert forall|i: int| 0 <= i < xs.len() implies slot(xs, kind_rank(#[trigger] xs[i]), 0) is Some by {
        lemma_slot_unique(xs, i);
    }
    assert forall|i: int, j: int| 0 <= i < xs.len() && 0 <= j < xs.len() && kind_rank(xs[i]) == kind_rank(xs[j]) implies same_shape(#[trigger] xs[i], #[trigger] xs[j]) by {
        if i != j {
            if i < j {
                assert(kind_rank(xs[i]) != kind_rank(xs[j]));
            } else {
                assert(kind_rank(xs[j]) != kind_rank(xs[i]));
            }
        }
        lemma_same_shape_refl(xs[i]);
    }
}

proof fn lemma_rank_claim(x1: Seq<Schema>, x2: Seq<Schema>, r: nat)
    requires
        distinct_kinds(x1),
        distinct_kinds(x2),
        forall|k: int| 0 <= k < x1.len() ==> wf(#[trigger] x1[k]),
        forall|k: int| 0 <= k < x2.len() ==> wf(#[trigger] x2[k]),
        forall|i: int, j: int| 0 <= i < x1.len() && 0 <= j < x2.len() ==> fits(#[trigger] x1[i], #[trigger] x2[j]),
    ensures
        joined(x1, x2, r) is Some <==> joined(x2, x1, r) is Some,
        joined(x1, x2, r) matches Some(u) ==> same_shape(u, joined(x2, x1, r)->0),
        joined(x1, x2, r) matches Some(u) ==> wf(u),
    decreases x2, 1int,
{
    lemma_slot(x1, r, 0);
    lemma_slot(x2, r, 0);
    match (slot(x1, r, 0), slot(x2, r, 0)) {
        (Some(i), Some(j)) => {
            assert(decreases_to!(x2 => x2[j]));
            lemma_commutes(x1[i], x2[j]);
            lemma_merge_wf(x1[i], x2[j]);
        },
        (Some(i), None) => {
            lemma_same_shape_refl(x1[i]);
        },
        (None, Some(j)) => {
            lemma_same_shape_refl(x2[j]);
        },
        _ => {},
    }
}

proof fn lemma_alts_commute(x1: Seq<Schema>, x2: Seq<Schema>)
    requires
        distinct_kinds(x1),
        distinct_kinds(x2),
        forall|k: int| 0 <= k < x1.len() ==> wf(#[trigger] x1[k]),
        forall|k: int| 0 <= k < x2.len() ==> wf(#[trigger] x2[k]),
        forall|i: int, j: int| 0 <= i < x1.len() && 0 <= j < x2.len() ==> fits(#[trigger] x1[i], #[trigger] x2[j]),
    ensures
        same_alts(absorb_all(x1, x2, x2.len() as int), absorb_all(x2, x1, x1.len() as int)),
    decreases x2, 2int,
{
    let m1 = absorb_all(x1, x2, x2.len() as int);
    let m2 = absorb_all(x2, x1, x1.len() as int);
    lemma_absorb_all_wf(x1, x2, x2.len() as int);
    lemma_absorb_all_wf(x2, x1, x1.len() as int);
    assert(x2.take(x2.len() as int) =~= x2);
    assert(x1.take(x1.len() as int) =~= x1);
    assert forall|r: nat| at_rank(m1, r) == joined(x1, x2, r) && at_rank(m2, r) == joined(x2, x1, r) by {
        lemma_absorb_all_at_rank(x1, x2, x2.len() as int, r);
        lemma_absorb_all_at_rank(x2, x1, x1.len() as int, r);
    }
    assert forall|i: int| 0 <= i < m1.len() implies slot(m2, kind_rank(#[trigger] m1[i]), 0) is Some by {
        let r = kind_rank(m1[i]);
        lemma_slot_unique(m1, i);
        lemma_rank_claim(x1, x2, r);
        assert(at_rank(m1, r) == joined(x1, x2, r) && at_rank(m2, r) == joined(x2, x1, r));
    }
    assert forall|j: int| 0 <= j < m2.len() implies slot(m1, kind_rank(#[trigger] m2[j]), 0) is Some by {
        let r = kind_rank(m2[j]);
        lemma_slot_unique(m2, j);
        lemma_rank_claim(x1, x2, r);
        assert(at_rank(m1, r) == joined(x1, x2, r) && at_rank(m2, r) == joined(x2, x1, r));
    }
    assert forall|i: int, j: int| 0 <= i < m1.len() && 0 <= j < m2.len() && kind_rank(m1[i]) == kind_rank(m2[j]) implies same_shape(#[trigger] m1[i], #[trigger] m2[j]) by {
        let r = kind_rank(m1[i]);
        lemma_slot_unique(m1, i);
        lemma_slot_unique(m2, j);
        lemma_rank_claim(x1, x2, r);
        assert(at_rank(m1, r) == joined(x1, x2, r) && at_rank(m2, r) == joined(x2, x1, r));
    }
}

/// The alternatives that the merge of two objects records under a key.
pub(crate) proof fn lemma_key_alts(
    f1: Seq<(Seq<char>, Seq<Schema>, bool)>,
    f2: Seq<(Seq<char>, Seq<Schema>, bool)>,
    k: Seq<char>,
)
    requires
        distinct_keys(f2),
    ensures
        merge(Schema::Obj(f1), Schema::Obj(f2)) matches Some(Schema::Obj(m)) && (find_key(m, k, 0) matches Some(i) ==> match (find_key(f1, k, 0), find_key(f2, k, 0)) {
            (Some(a), Some(b)) => m[i].1 == absorb_all(f1[a].1, f2[b].1, f2[b].1.len() as int),
            (Some(a), None) => m[i].1 == f1[a].1,
            (None, Some(b)) => m[i].1 == f2[b].1,
            (None, None) => false,
        }),
{
    let left = merged_fields(f1, f2, f1.len() as int);
    let right = right_only_fields(f1, f2, f2.len() as int);
    let m = left + right;
    assert(merge(Schema::Obj(f1), Schema::Obj(f2)) == Some(Schema::Obj(m)));
    lemma_key_presence(f1, f2, k);
    lemma_merged_fields(f1, f2, f1.len() as int);
    lemma_right_only_fields(f1, f2, f2.len() as int);
    lemma_find_key(f1, k, 0);
    lemma_find_key(m, k, 0);
    if let Some(i) = find_key(m, k, 0) {
        match find_key(f1, k, 0) {
            Some(a) => {
                assert(m[a] == left[a]);
            },
            None => {
                if i < left.len() {
                    assert(m[i] == left[i]);
                } else {
                    assert(m[i] == right[i - left.len()]);
                    let j = choose|j: int|
                        0 <= j < f2.len() && right[i - left.len()] == ((#[trigger] f2[j]).0, f2[j].1, true);
                    lemma_find_unique(f2, j);
                }
            },
        }
    }
}

/// Merging in either order renders alike, wherever the example cap is not reached: the merge
/// is commutative on well-formed schemas up to the order of examples, keys and alternatives.
pub proof fn lemma_commutes(a: Schema, b: Schema)
    requires
        wf(a),
        wf(b),
        fits(a, b),
        kind_rank(a) == kind_rank(b),
    ensures
        merge(a, b) is Some,
        merge(b, a) is Some,
        same_shape(merge(a, b)->0, merge(b, a)->0),
    decreases b, 0int,
{
    crate::laws::lemma_merge_some_iff_same_kind(a, b);
    crate::laws::lemma_merge_some_iff_same_kind(b, a);
    match (a, b) {
        (Schema::Str(..), Schema::Str(..)) => {
            lemma_merge_symmetric_top(a, b, Seq::empty());
        },
        (Schema::Num(..), Schema::Num(..)) => {
            lemma_merge_symmetric_top(a, b, Seq::empty());
        },
        (Schema::Arr(x1, _, _), Schema::Arr(x2, _, _)) => {
            lemma_alts_commute(x1, x2);
        },
        (Schema::Obj(f1), Schema::Obj(f2)) => {
            lemma_objects_commute(f1, f2);
        },
        _ => {},
    }
}

proof fn lemma_objects_commute(f1: Seq<(Seq<char>, Seq<Schema>, bool)>, f2: Seq<(Seq<char>, Seq<Schema>, bool)>)
    requires
        wf(Schema::Obj(f1)),
        wf(Schema::Obj(f2)),
        fits(Schema::Obj(f1), Schema::Obj(f2)),
    ensures
        same_shape(merge(Schema::Obj(f1), Schema::Obj(f2))->0, merge(Schema::Obj(f2), Schema::Obj(f1))->0),
    decreases f2, 3int,
{
    let m1 = (merge(Schema::Obj(f1), Schema::Obj(f2))->0)->Obj_0;
    let m2 = (merge(Schema::Obj(f2), Schema::Obj(f1))->0)->Obj_0;
    lemma_merge_wf(Schema::Obj(f1), Schema::Obj(f2));
    lemma_merge_wf(Schema::Obj(f2), Schema::Obj(f1));
    assert(distinct_keys(m1));
    assert(distinct_keys(m2));
    assert forall|i: int| 0 <= i < m1.len() implies find_key(m2, (#[trigger] m1[i]).0, 0) is Some by {
        let k = m1[i].0;
        lemma_find_unique(m1, i);
        lemma_key_presence(f1, f2, k);
        lemma_key_presence(f2, f1, k);
    }
    assert forall|j: int| 0 <= j < m2.len() implies find_key(m1, (#[trigger] m2[j]).0, 0) is Some by {
        let k = m2[j].0;
        lemma_find_unique(m2, j);
        lemma_key_presence(f1, f2, k);
        lemma_key_presence(f2, f1, k);
    }
    assert forall|i: int, j: int| 0 <= i < m1.len() && 0 <= j < m2.len() && m1[i].0 == m2[j].0 implies (#[trigger] m1[i]).2 == (#[trigger] m2[j]).2 && same_alts(m1[i].1, m2[j].1) by {
        lemma_key_commutes(f1, f2, m1[i].0);
        lemma_find_unique(m1, i);
        lemma_find_unique(m2, j);
    }
}

proof fn lemma_key_commutes(f1: Seq<(Seq<char>, Seq<Schema>, bool)>, f2: Seq<(Seq<char>, Seq<Schema>, bool)>, k: Seq<char>)
    requires
        wf(Schema::Obj(f1)),
        wf(Schema::Obj(f2)),
        fits(Schema::Obj(f1), Schema::Obj(f2)),
    ensures
        ({
            let m1 = (merge(Schema::Obj(f1), Schema::Obj(f2))->0)->Obj_0;
            let m2 = (merge(Schema::Obj(f2), Schema::Obj(f1))->0)->Obj_0;
            find_key(m1, k, 0) matches Some(i) ==> (find_key(m2, k, 0) matches Some(j) ==> m1[i].2 == m2[j].2 && same_alts(m1[i].1, m2[j].1))
        }),
    decreases f2, 2int,
{
    let m1 = (merge(Schema::Obj(f1), Schema::Obj(f2))->0)->Obj_0;
    let m2 = (merge(Schema::Obj(f2), Schema::Obj(f1))->0)->Obj_0;
    lemma_key_presence(f1, f2, k);
    lemma_key_presence(f2, f1, k);
    lemma_key_alts(f1, f2, k);
    lemma_key_alts(f2, f1, k);
    lemma_find_key(f1, k, 0);
    lemma_find_key(f2, k, 0);
    match (find_key(f1, k, 0), find_key(f2, k, 0)) {
        (Some(a), Some(b)) => {
            assert(decreases_to!(f2 => f2[b]));
            assert(distinct_kinds(f1[a].1) && distinct_kinds(f2[b].1));
            assert forall|p: int| 0 <= p < f1[a].1.len() implies wf(#[trigger] f1[a].1[p]) by {}
            assert forall|q: int| 0 <= q < f2[b].1.len() implies wf(#[trigger] f2[b].1[q]) by {}
            assert forall|p: int, q: int| 0 <= p < f1[a].1.len() && 0 <= q < f2[b].1.len() implies fits(#[trigger] f1[a].1[p], #[trigger] f2[b].1[q]) by {}
            lemma_alts_commute(f1[a].1, f2[b].1);
        },
        (Some(a), None) => {
            assert(distinct_kinds(f1[a].1));
            assert forall|p: int| 0 <= p < f1[a].1.len() implies wf(#[trigger] f1[a].1[p]) by {}
            lemma_same_alts_refl(f1[a].1);
        },
        (None, Some(b)) => {
            assert(distinct_kinds(f2[b].1));
            assert forall|q: int| 0 <= q < f2[b].1.len() implies wf(#[trigger] f2[b].1[q]) by {}
            lemma_same_alts_refl(f2[b].1);
        },
        (None, None) => {},
    }
}

} // verus!
