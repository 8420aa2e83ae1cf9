//! Cheap decision of quantifier-free definability for targets of arity one.
//!
//! Without operations of positive arity, a unary relation is definable exactly when it is
//! empty or the whole universe. With unary operations (and constants) the decision compares,
//! for every fingerprint of the subalgebra generated by an element of the target, how many
//! elements of the target and of the universe carry it.

use vstd::prelude::*;

use crate::first_order::models::Model;
use crate::first_order::relops::{Operation, Relation};
use crate::strs::{int_text, lemma_seq_lt_total, push_str, push_usize, seq_lt, str_lt};
use vstd::utf8::encode_utf8;

verus! {

/// `s` is strictly increasing.
pub open spec fn strictly_increasing(s: Seq<i64>) -> bool {
    forall|i: int, j: int| 0 <= i < j < s.len() ==> s[i] < s[j]
}

/// `s` contains the defined constants and is closed under the unary operations of `ops`.
pub open spec fn closed_under(s: Set<i64>, ops: Seq<Operation>) -> bool {
    &&& forall|i: int|
        0 <= i < ops.len() && (#[trigger] ops[i]).arity == 0 && ops[i].lookup(Seq::empty()) is Some ==> s.contains(
            ops[i].lookup(Seq::empty()).unwrap(),
        )
    &&& forall|i: int, x: i64|
        0 <= i < ops.len() && (#[trigger] ops[i]).arity == 1 && s.contains(x) && (#[trigger] ops[i].lookup(seq![x])) is Some
            ==> s.contains(ops[i].lookup(seq![x]).unwrap())
}

/// The subuniverse generated by `seed` under the constants and unary operations:
/// the elements that every closed set containing `seed` contains.
pub open spec fn unary_closure(seed: i64, ops: Seq<Operation>) -> Set<i64> {
    Set::new(|x: i64| forall|s: Set<i64>| #[trigger] closed_under(s, ops) && s.contains(seed) ==> s.contains(x))
}

/// Inserts `x` into a strictly increasing vector; tells whether it was absent.
pub fn insert_sorted(s: &mut Vec<i64>, x: i64) -> (added: bool)
    requires
        strictly_increasing(old(s)@),
    ensures
        strictly_increasing(final(s)@),
        final(s)@.to_set() == old(s)@.to_set().insert(x),
        added == !old(s)@.contains(x),
        final(s)@.len() == old(s)@.len() + if added { 1int } else { 0int },
{
    let mut p: usize = 0;
    while p < s.len() && s[p] < x
        invariant
            p <= s.len(),
            strictly_increasing(s@),
            forall|k: int| 0 <= k < p ==> s@[k] < x,
        decreases s.len() - p,
    {
        p += 1;
    }
    if p < s.len() && s[p] == x {
        proof {
            assert(s@.to_set().insert(x) =~= s@.to_set());
        }
        return false;
    }
    let ghost before = s@;
    proof {
        assert(!before.contains(x)) by {
            if before.contains(x) {
                let k = choose|k: int| 0 <= k < before.len() && before[k] == x;
                if k < p {
                } else {
                    assert(before[p as int] <= before[k]);
                }
            }
        }
    }
    s.insert(p, x);
    proof {
        assert(s@ == before.insert(p as int, x));
        assert forall|i: int, j: int| 0 <= i < j < s@.len() implies s@[i] < s@[j] by {
            if j < p {
            } else if j == p {
            } else if i < p {
                assert(s@[j] == before[j - 1]);
                assert(before[p as int] > x || p == before.len());
            } else if i == p {
                assert(s@[j] == before[j - 1]);
                assert(before[p as int] > x);
                assert(before[p as int] <= before[j - 1]);
            } else {
                assert(s@[i] == before[i - 1]);
                assert(s@[j] == before[j - 1]);
            }
        }
        assert forall|y: i64| s@.to_set().contains(y) <==> before.to_set().insert(x).contains(y) by {
            if s@.contains(y) {
                let k = choose|k: int| 0 <= k < s@.len() && s@[k] == y;
                if k < p {
                    assert(before[k] == y);
                } else if k > p {
                    assert(before[k - 1] == y);
                }
            }
            if before.contains(y) {
                let k = choose|k: int| 0 <= k < before.len() && before[k] == y;
                if k < p {
                    assert(s@[k] == y);
                } else {
                    assert(s@[k + 1] == y);
                }
            }
            if y == x {
                assert(s@[p as int] == x);
            }
        }
        assert(s@.to_set() =~= before.to_set().insert(x));
    }
    true
}

/// Every element that the operations can produce from `seed`: the seed and the values of the tables.
fn candidate_values(seed: i64, ops: &Vec<Operation>) -> (c: Vec<i64>)
    ensures
        c@.contains(seed),
        forall|i: int, k: int|
            0 <= i < ops.len() && 0 <= k < ops@[i].op@.len() ==> c@.contains(#[trigger] ops@[i].op@[k].1),
{
    let mut c: Vec<i64> = Vec::new();
    c.push(seed);
    let mut i: usize = 0;
    while i < ops.len()
        invariant
            i <= ops.len(),
            c@.len() > 0 && c@[0] == seed,
            forall|i2: int, k: int|
                0 <= i2 < i && 0 <= k < ops@[i2].op@.len() ==> c@.contains(#[trigger] ops@[i2].op@[k].1),
        decreases ops.len() - i,
    {
        let mut k: usize = 0;
        while k < ops[i].op.len()
            invariant
                i < ops.len(),
                k <= ops@[i as int].op@.len(),
                c@.len() > 0 && c@[0] == seed,
                forall|i2: int, k2: int|
                    0 <= i2 < i && 0 <= k2 < ops@[i2].op@.len() ==> c@.contains(#[trigger] ops@[i2].op@[k2].1),
                forall|k2: int| 0 <= k2 < k ==> c@.contains(#[trigger] ops@[i as int].op@[k2].1),
            decreases ops@[i as int].op@.len() - k,
        {
            let ghost before = c@;
            c.push(ops[i].op[k].1);
            proof {
                assert forall|i2: int, k2: int|
                    0 <= i2 < i && 0 <= k2 < ops@[i2].op@.len() implies c@.contains(#[trigger] ops@[i2].op@[k2].1) by {
                    let w = choose|w: int| 0 <= w < before.len() && before[w] == ops@[i2].op@[k2].1;
                    assert(c@[w] == before[w]);
                }
                assert forall|k2: int| 0 <= k2 < k + 1 implies c@.contains(#[trigger] ops@[i as int].op@[k2].1) by {
                    if k2 < k {
                        let w = choose|w: int| 0 <= w < before.len() && before[w] == ops@[i as int].op@[k2].1;
                        assert(c@[w] == before[w]);
                    } else {
                        assert(c@[before.len() as int] == ops@[i as int].op@[k2].1);
                    }
                }
            }
            k += 1;
        }
        i += 1;
    }
    proof {
        assert(c@[0] == seed);
    }
    c
}

/// A defined value of an operation is one of the values of its table.
proof fn lemma_lookup_value(op: Operation, k: Seq<i64>)
    requires
        op.lookup(k) is Some,
    ensures
        exists|j: int| 0 <= j < op.op@.len() && (#[trigger] op.op@[j]).1 == op.lookup(k).unwrap(),
    decreases op.op@.len(),
{
    lemma_table_value(op.op@, k);
}

proof fn lemma_table_value(entries: Seq<(Vec<i64>, i64)>, k: Seq<i64>)
    requires
        crate::first_order::relops::table_lookup(entries, k) is Some,
    ensures
        exists|j: int| 0 <= j < entries.len() && (#[trigger] entries[j]).1 == crate::first_order::relops::table_lookup(
            entries,
            k,
        ).unwrap(),
    decreases entries.len(),
{
    if entries.last().0@ == k {
        assert(entries[entries.len() - 1].1 == entries.last().1);
    } else {
        lemma_table_value(entries.drop_last(), k);
        let j = choose|j: int|
            0 <= j < entries.drop_last().len() && (#[trigger] entries.drop_last()[j]).1
                == crate::first_order::relops::table_lookup(entries.drop_last(), k).unwrap();
        assert(entries[j] == entries.drop_last()[j]);
    }
}

/// What a sequence holds after a push.
pub proof fn lemma_push_contains_usize(s: Seq<usize>, a: usize, x: usize)
    ensures
        s.push(a).contains(x) <==> (s.contains(x) || x == a),
{
    if s.contains(x) {
        let k = choose|k: int| 0 <= k < s.len() && s[k] == x;
        assert(s.push(a)[k] == x);
    }
    if x == a {
        assert(s.push(a)[s.len() as int] == x);
    }
    if s.push(a).contains(x) {
        let k = choose|k: int| 0 <= k < s.len() + 1 && s.push(a)[k] == x;
        if k < s.len() {
            assert(s[k] == x);
        }
    }
}

/// A strictly increasing list drawn from `c` is no longer than `c`.
proof fn lemma_bounded_by(s: Seq<i64>, c: Seq<i64>)
    requires
        strictly_increasing(s),
        forall|x: i64| s.contains(x) ==> c.contains(x),
    ensures
        s.len() <= c.len(),
{
    assert(s.no_duplicates()) by {
        assert forall|i: int, j: int| 0 <= i < s.len() && 0 <= j < s.len() && i != j implies s[i] != s[j] by {
            if i < j {
                assert(s[i] < s[j]);
            } else {
                assert(s[j] < s[i]);
            }
        }
    }
    s.unique_seq_to_set();
    c.lemma_cardinality_of_set();
    assert(s.to_set().subset_of(c.to_set()));
    vstd::set_lib::lemma_len_subset(s.to_set(), c.to_set());
}

/// The subuniverse generated by `seed` under the constants and the unary operations,
/// as a strictly increasing list.
pub fn generated_unary_closure(seed: i64, model: &Model) -> (r: Vec<i64>)
    requires
        model.wf(),
    ensures
        strictly_increasing(r@),
        r@.to_set() == unary_closure(seed, model.operations@),
{
    let ghost ops = model.operations@;
    let ghost cl = unary_closure(seed, ops);
    let cands = candidate_values(seed, &model.operations);
    let mut s: Vec<i64> = Vec::new();
    s.push(seed);
    proof {
        assert forall|t: Set<i64>| #[trigger] closed_under(t, ops) && t.contains(seed) implies t.contains(seed) by {}
        assert(cl.contains(seed));
        assert(s@[0] == seed);
        assert forall|x: i64| s@.contains(x) implies cl.contains(x) && cands@.contains(x) by {
            let w = choose|w: int| 0 <= w < s@.len() && s@[w] == x;
            assert(w == 0);
        }
    }
    let mut i: usize = 0;
    while i < model.operations.len()
        invariant
            i <= model.operations.len(),
            model.wf(),
            ops == model.operations@,
            cl == unary_closure(seed, ops),
            strictly_increasing(s@),
            s@.contains(seed),
            forall|x: i64| #[trigger] s@.contains(x) ==> cl.contains(x) && cands@.contains(x),
            forall|i2: int|
                0 <= i2 < i && (#[trigger] ops[i2]).arity == 0 && ops[i2].lookup(Seq::empty()) is Some ==> s@.contains(
                    ops[i2].lookup(Seq::empty()).unwrap(),
                ),
            cands@.contains(seed),
            forall|i2: int, k: int|
                0 <= i2 < ops.len() && 0 <= k < ops[i2].op@.len() ==> cands@.contains(#[trigger] ops[i2].op@[k].1),
        decreases model.operations.len() - i,
    {
        if model.operations[i].arity == 0 {
            let empty: Vec<i64> = Vec::new();
            proof {
                assert(empty@ =~= Seq::<i64>::empty());
            }
            if let Some(v) = model.operations[i].call(empty.as_slice()) {
                let ghost before = s@;
                proof {
                    assert forall|t: Set<i64>| #[trigger] closed_under(t, ops) && t.contains(seed) implies t.contains(v) by {
                        assert(ops[i as int].arity == 0);
                    }
                    lemma_lookup_value(ops[i as int], Seq::empty());
                    let w = choose|w: int| 0 <= w < ops[i as int].op@.len() && (#[trigger] ops[i as int].op@[w]).1 == v;
                    assert(cands@.contains(ops[i as int].op@[w].1));
                }
                insert_sorted(&mut s, v);
                proof {
                    assert forall|x: i64| s@.contains(x) implies cl.contains(x) && cands@.contains(x) by {
                        assert(s@.to_set().contains(x));
                        if x != v {
                            assert(before.to_set().contains(x));
                        }
                    }
                    assert(s@.to_set().contains(seed));
                    assert forall|i2: int|
                        0 <= i2 < i + 1 && (#[trigger] ops[i2]).arity == 0 && ops[i2].lookup(Seq::empty()) is Some
                            implies s@.contains(ops[i2].lookup(Seq::empty()).unwrap()) by {
                        assert(s@.to_set().contains(ops[i2].lookup(Seq::empty()).unwrap()));
                    }
                }
            }
        }
        i += 1;
    }
    loop
        invariant
            model.wf(),
            ops == model.operations@,
            cl == unary_closure(seed, ops),
            strictly_increasing(s@),
            s@.contains(seed),
            forall|x: i64| #[trigger] s@.contains(x) ==> cl.contains(x) && cands@.contains(x),
            forall|i2: int|
                0 <= i2 < ops.len() && (#[trigger] ops[i2]).arity == 0 && ops[i2].lookup(Seq::empty()) is Some ==> s@.contains(
                    ops[i2].lookup(Seq::empty()).unwrap(),
                ),
            cands@.contains(seed),
            forall|i2: int, k: int|
                0 <= i2 < ops.len() && 0 <= k < ops[i2].op@.len() ==> cands@.contains(#[trigger] ops[i2].op@[k].1),
        ensures
            strictly_increasing(s@),
            s@.contains(seed),
            forall|x: i64| s@.contains(x) ==> cl.contains(x),
            closed_under(s@.to_set(), ops),
        decreases cands@.len() - s@.len(),
    {
        proof {
            lemma_bounded_by(s@, cands@);
        }
        let ghost start = s@;
        let snapshot = crate::util::copy_tuple(s.as_slice());
        let mut changed = false;
        let mut k: usize = 0;
        while k < snapshot.len()
            invariant
                k <= snapshot.len(),
                snapshot@ == start,
                model.wf(),
                ops == model.operations@,
                cl == unary_closure(seed, ops),
                strictly_increasing(s@),
                s@.contains(seed),
                forall|x: i64| #[trigger] s@.contains(x) ==> cl.contains(x) && cands@.contains(x),
                forall|x: i64| start.contains(x) ==> s@.contains(x),
                s@.len() >= start.len(),
                changed ==> s@.len() > start.len(),
                !changed ==> s@ == start,
                    forall|i2: int, k: int|
                    0 <= i2 < ops.len() && 0 <= k < ops[i2].op@.len() ==> cands@.contains(#[trigger] ops[i2].op@[k].1),
                forall|k2: int, i2: int|
                    0 <= k2 < k && 0 <= i2 < ops.len() && (#[trigger] ops[i2]).arity == 1 && (#[trigger] ops[i2].lookup(
                        seq![start[k2]],
                    )) is Some ==> s@.contains(ops[i2].lookup(seq![start[k2]]).unwrap()),
            decreases snapshot.len() - k,
        {
            let x = snapshot[k];
            let mut j: usize = 0;
            while j < model.operations.len()
                invariant
                    k < snapshot.len(),
                    x == start[k as int],
                    j <= model.operations.len(),
                    snapshot@ == start,
                    model.wf(),
                    ops == model.operations@,
                    cl == unary_closure(seed, ops),
                    strictly_increasing(s@),
                    s@.contains(seed),
                    forall|y: i64| #[trigger] s@.contains(y) ==> cl.contains(y) && cands@.contains(y),
                    forall|y: i64| start.contains(y) ==> s@.contains(y),
                    s@.len() >= start.len(),
                    changed ==> s@.len() > start.len(),
                    !changed ==> s@ == start,
                    forall|i2: int, k: int|
                        0 <= i2 < ops.len() && 0 <= k < ops[i2].op@.len() ==> cands@.contains(#[trigger] ops[i2].op@[k].1),
                    forall|k2: int, i2: int|
                        0 <= k2 < k && 0 <= i2 < ops.len() && (#[trigger] ops[i2]).arity == 1 && (#[trigger] ops[i2].lookup(
                            seq![start[k2]],
                        )) is Some ==> s@.contains(ops[i2].lookup(seq![start[k2]]).unwrap()),
                    forall|i2: int|
                        0 <= i2 < j && (#[trigger] ops[i2]).arity == 1 && ops[i2].lookup(seq![x]) is Some ==> s@.contains(
                            ops[i2].lookup(seq![x]).unwrap(),
                        ),
                decreases model.operations.len() - j,
            {
                if model.operations[j].arity == 1 {
                    let args: Vec<i64> = vec![x];
                    proof {
                        assert(args@ =~= seq![x]);
                    }
                    if let Some(y) = model.operations[j].call(args.as_slice()) {
                        let ghost before = s@;
                        proof {
                            assert(start.contains(x));
                            assert(cl.contains(x));
                            assert forall|t: Set<i64>| #[trigger] closed_under(t, ops) && t.contains(seed) implies t.contains(y) by {
                                assert(t.contains(x));
                                assert(ops[j as int].arity == 1);
                            }
                            lemma_lookup_value(ops[j as int], seq![x]);
                            let w = choose|w: int| 0 <= w < ops[j as int].op@.len() && (#[trigger] ops[j as int].op@[w]).1 == y;
                            assert(cands@.contains(ops[j as int].op@[w].1));
                        }
                        let added = insert_sorted(&mut s, y);
                        if added {
                            changed = true;
                        }
                        proof {
                            assert forall|z: i64| s@.contains(z) implies cl.contains(z) && cands@.contains(z) by {
                                assert(s@.to_set().contains(z));
                                if z != y {
                                    assert(before.to_set().contains(z));
                                }
                            }
                            assert(s@.to_set().contains(seed));
                            assert forall|z: i64| start.contains(z) implies s@.contains(z) by {
                                assert(before.to_set().contains(z));
                                assert(s@.to_set().contains(z));
                            }
                            if !added {
                                assert(s@.to_set() =~= before.to_set());
                                assert(s@ == before) by {
                                    lemma_sorted_same_set(s@, before);
                                }
                            }
                            assert forall|k2: int, i2: int|
                                0 <= k2 < k && 0 <= i2 < ops.len() && (#[trigger] ops[i2]).arity == 1
                                    && (#[trigger] ops[i2].lookup(seq![start[k2]])) is Some implies s@.contains(
                                ops[i2].lookup(seq![start[k2]]).unwrap(),
                            ) by {
                                assert(before.to_set().contains(ops[i2].lookup(seq![start[k2]]).unwrap()));
                                assert(s@.to_set().contains(ops[i2].lookup(seq![start[k2]]).unwrap()));
                            }
                            assert forall|i2: int|
                                0 <= i2 < j + 1 && (#[trigger] ops[i2]).arity == 1 && ops[i2].lookup(seq![x]) is Some
                                    implies s@.contains(ops[i2].lookup(seq![x]).unwrap()) by {
                                assert(s@.to_set().contains(ops[i2].lookup(seq![x]).unwrap())) by {
                                    if i2 < j {
                                        assert(before.to_set().contains(ops[i2].lookup(seq![x]).unwrap()));
                                    }
                                }
                            }
                        }
                    }
                }
                j += 1;
            }
            k += 1;
        }
        proof {
            lemma_bounded_by(s@, cands@);
        }
        if !changed {
            proof {
                assert forall|i2: int, z: i64|
                    0 <= i2 < ops.len() && (#[trigger] ops[i2]).arity == 1 && s@.to_set().contains(z)
                        && (#[trigger] ops[i2].lookup(seq![z])) is Some implies s@.to_set().contains(
                    ops[i2].lookup(seq![z]).unwrap(),
                ) by {
                    let w = choose|w: int| 0 <= w < start.len() && start[w] == z;
                    assert(ops[i2].lookup(seq![start[w]]) is Some);
                }
                assert forall|i2: int|
                    0 <= i2 < ops.len() && (#[trigger] ops[i2]).arity == 0 && ops[i2].lookup(Seq::empty()) is Some implies s@.to_set().contains(
                        ops[i2].lookup(Seq::empty()).unwrap(),
                    ) by {}
            }
            break;
        }
    }
    proof {
        assert forall|x: i64| s@.to_set().contains(x) <==> cl.contains(x) by {
            if cl.contains(x) {
                assert(closed_under(s@.to_set(), ops) && s@.to_set().contains(seed));
            }
        }
        assert(s@.to_set() =~= cl);
    }
    s
}

/// Two strictly increasing lists with the same elements are equal.
pub proof fn lemma_sorted_same_set(a: Seq<i64>, b: Seq<i64>)
    requires
        strictly_increasing(a),
        strictly_increasing(b),
        a.to_set() == b.to_set(),
    ensures
        a == b,
    decreases a.len() + b.len(),
{
    if a.len() == 0 {
        if b.len() > 0 {
            assert(b.to_set().contains(b[0]));
            assert(a.to_set().contains(b[0]));
        }
    } else if b.len() == 0 {
        assert(a.to_set().contains(a[0]));
        assert(b.to_set().contains(a[0]));
    } else {
        let la = a.last();
        let lb = b.last();
        assert(a.to_set().contains(la));
        assert(b.to_set().contains(lb));
        assert(b.contains(la));
        assert(a.contains(lb));
        let ia = choose|i: int| 0 <= i < a.len() && a[i] == lb;
        let ib = choose|i: int| 0 <= i < b.len() && b[i] == la;
        assert(la == lb) by {
            if la < lb {
                assert(a[ia] <= a[a.len() - 1]) by {
                    if ia < a.len() - 1 {
                    }
                }
            } else if lb < la {
                assert(b[ib] <= b[b.len() - 1]) by {
                    if ib < b.len() - 1 {
                    }
                }
            }
        }
        let da = a.drop_last();
        let db = b.drop_last();
        assert forall|x: i64| da.to_set().contains(x) <==> db.to_set().contains(x) by {
            if da.contains(x) {
                let i = choose|i: int| 0 <= i < da.len() && da[i] == x;
                assert(a[i] == x);
                assert(a.to_set().contains(x));
                assert(b.contains(x));
                let j = choose|j: int| 0 <= j < b.len() && b[j] == x;
                assert(x < la);
                assert(j != b.len() - 1);
                assert(db[j] == x);
            }
            if db.contains(x) {
                let i = choose|i: int| 0 <= i < db.len() && db[i] == x;
                assert(b[i] == x);
                assert(b.to_set().contains(x));
                assert(a.contains(x));
                let j = choose|j: int| 0 <= j < a.len() && a[j] == x;
                assert(x < lb);
                assert(j != a.len() - 1);
                assert(da[j] == x);
            }
        }
        assert(da.to_set() =~= db.to_set());
        lemma_sorted_same_set(da, db);
        assert(a =~= da.push(la));
        assert(b =~= db.push(lb));
    }
}

/// Little-endian bytes of a `u32`.
pub open spec fn u32_le(n: u32) -> Seq<u8> {
    seq![(n % 256) as u8, ((n / 256) % 256) as u8, ((n / 65536) % 256) as u8, ((n / 16777216) % 256) as u8]
}

/// Appends the little-endian bytes of `n`.
pub fn push_u32_le(out: &mut Vec<u8>, n: u32)
    ensures
        final(out)@ == old(out)@ + u32_le(n),
{
    out.push((n % 256) as u8);
    out.push(((n / 256) % 256) as u8);
    out.push(((n / 65536) % 256) as u8);
    out.push(((n / 16777216) % 256) as u8);
    proof {
        assert(final(out)@ =~= old(out)@ + u32_le(n));
    }
}

/// Appends a slice of bytes.
pub fn push_bytes(out: &mut Vec<u8>, b: &[u8])
    ensures
        final(out)@ == old(out)@ + b@,
{
    let ghost start = out@;
    let mut i: usize = 0;
    while i < b.len()
        invariant
            i <= b.len(),
            out@ == start + b@.take(i as int),
        decreases b.len() - i,
    {
        out.push(b[i]);
        i += 1;
        proof {
            assert(out@ =~= start + b@.take(i as int));
        }
    }
    proof {
        assert(b@.take(b.len() as int) =~= b@);
    }
}

/// `s` without the occurrences of `x`.
pub open spec fn without(s: Seq<i64>, x: i64) -> Seq<i64>
    decreases s.len(),
{
    if s.len() == 0 {
        Seq::empty()
    } else {
        let w = without(s.drop_last(), x);
        if s.last() == x {
            w
        } else {
            w.push(s.last())
        }
    }
}

/// The generator first, then the other elements in increasing order; an element's position
/// in this list is its identifier.
pub open spec fn id_order(seed: i64, elems: Seq<i64>) -> Seq<i64> {
    seq![seed] + without(elems, seed)
}

/// The generated subuniverse as a strictly increasing list.
pub open spec fn closure_list(seed: i64, ops: Seq<Operation>) -> Seq<i64> {
    choose|s: Seq<i64>| strictly_increasing(s) && s.to_set() == unary_closure(seed, ops)
}

/// Operations are ordered by name, then by arity.
pub open spec fn key_lt(a: Operation, b: Operation) -> bool {
    seq_lt(a.sym@, b.sym@) || (a.sym@ == b.sym@ && a.arity < b.arity)
}

/// Inserts `o` before the first member of `sorted` with a larger key.
pub open spec fn insert_op(sorted: Seq<Operation>, o: Operation) -> Seq<Operation>
    decreases sorted.len(),
{
    if sorted.len() == 0 {
        seq![o]
    } else if key_lt(o, sorted[0]) {
        seq![o] + sorted
    } else {
        seq![sorted[0]] + insert_op(sorted.drop_first(), o)
    }
}

/// The operations sorted by key (stable insertion).
pub open spec fn sort_ops(ops: Seq<Operation>) -> Seq<Operation>
    decreases ops.len(),
{
    if ops.len() == 0 {
        Seq::empty()
    } else {
        insert_op(sort_ops(ops.drop_last()), ops.last())
    }
}

/// Identifier bytes of `v` when it lies in `order`.
pub open spec fn id_bytes(order: Seq<i64>, v: Option<i64>) -> Seq<u8> {
    match v {
        Some(x) => if order.contains(x) {
            u32_le(order.index_of(x) as u32)
        } else {
            Seq::empty()
        },
        None => Seq::empty(),
    }
}

/// The table of a unary operation on the first `n` identified elements: pairs of identifiers.
pub open spec fn table_bytes(op: Operation, order: Seq<i64>, n: int) -> Seq<u8>
    decreases n,
{
    if n <= 0 {
        Seq::empty()
    } else {
        let v = op.lookup(seq![order[n - 1]]);
        table_bytes(op, order, n - 1) + if v is Some && order.contains(v.unwrap()) {
            u32_le((n - 1) as u32) + id_bytes(order, v)
        } else {
            Seq::empty()
        }
    }
}

/// The bytes describing one operation: arity, name, a zero byte, then its constant or table.
pub open spec fn op_block(op: Operation, order: Seq<i64>) -> Seq<u8> {
    u32_le(op.arity as u32) + encode_utf8(op.sym@) + seq![0u8] + if op.arity == 0 {
        id_bytes(order, op.lookup(Seq::empty()))
    } else if op.arity == 1 {
        table_bytes(op, order, order.len() as int)
    } else {
        Seq::empty()
    }
}

/// The blocks of a list of operations, in order.
pub open spec fn op_blocks(ops: Seq<Operation>, order: Seq<i64>) -> Seq<u8>
    decreases ops.len(),
{
    if ops.len() == 0 {
        Seq::empty()
    } else {
        op_blocks(ops.drop_last(), order) + op_block(ops.last(), order)
    }
}

/// Canonical fingerprint of the labelled unary algebra generated by `seed`: its size, then the
/// operations in key order, with elements named by their identifiers.
pub open spec fn unary_fp(seed: i64, ops: Seq<Operation>) -> Seq<u8> {
    let elems = closure_list(seed, ops);
    u32_le(elems.len() as u32) + op_blocks(sort_ops(ops), id_order(seed, elems))
}

/// The list of identified elements, generator first.
fn make_id_order(seed: i64, elems: &Vec<i64>) -> (r: Vec<i64>)
    ensures
        r@ == id_order(seed, elems@),
{
    let mut r: Vec<i64> = Vec::new();
    r.push(seed);
    let mut i: usize = 0;
    while i < elems.len()
        invariant
            i <= elems.len(),
            r@ == seq![seed] + without(elems@.take(i as int), seed),
        decreases elems.len() - i,
    {
        proof {
            assert(elems@.take(i + 1).drop_last() =~= elems@.take(i as int));
        }
        if elems[i] != seed {
            r.push(elems[i]);
        }
        i += 1;
        proof {
            assert(r@ =~= seq![seed] + without(elems@.take(i as int), seed));
        }
    }
    proof {
        assert(elems@.take(elems.len() as int) =~= elems@);
    }
    r
}

/// Members of `without(s, x)`.
proof fn lemma_without(s: Seq<i64>, x: i64)
    ensures
        forall|y: i64| #[trigger] without(s, x).contains(y) <==> (s.contains(y) && y != x),
        strictly_increasing(s) ==> strictly_increasing(without(s, x)),
    decreases s.len(),
{
    if s.len() > 0 {
        let d = s.drop_last();
        lemma_without(d, x);
        let w = without(d, x);
        assert forall|y: i64| without(s, x).contains(y) <==> (s.contains(y) && y != x) by {
            if s.contains(y) && y != x {
                let k = choose|k: int| 0 <= k < s.len() && s[k] == y;
                if k < s.len() - 1 {
                    assert(d[k] == y);
                    assert(w.contains(y));
                    let j = choose|j: int| 0 <= j < w.len() && w[j] == y;
                    if s.last() != x {
                        assert(w.push(s.last())[j] == y);
                    }
                } else {
                    assert(w.push(s.last())[w.len() as int] == y);
                }
            }
            if without(s, x).contains(y) {
                let j = choose|j: int| 0 <= j < without(s, x).len() && without(s, x)[j] == y;
                if s.last() != x && j == w.len() {
                    assert(s[s.len() - 1] == y);
                } else {
                    assert(w[j] == y);
                    assert(w.contains(y));
                    assert(without(d, x).contains(y));
                    assert(d.contains(y));
                    let k = choose|k: int| 0 <= k < d.len() && d[k] == y;
                    assert(s[k] == y);
                }
            }
        }
        if strictly_increasing(s) {
            assert(strictly_increasing(d));
            if s.last() != x {
                assert forall|i: int, j: int| 0 <= i < j < w.len() + 1 implies w.push(s.last())[i] < w.push(s.last())[j] by {
                    if j == w.len() {
                        assert(w.contains(w[i]));
                        assert(d.contains(w[i]));
                        let k = choose|k: int| 0 <= k < d.len() && d[k] == w[i];
                        assert(s[k] < s[s.len() - 1]);
                    }
                }
            }
        }
    }
}

/// First position of `x` in `s`.
fn find_pos(s: &Vec<i64>, x: i64) -> (r: Option<usize>)
    ensures
        match r {
            Some(i) => i < s.len() && s@[i as int] == x && forall|j: int| 0 <= j < i ==> s@[j] != x,
            None => !s@.contains(x),
        },
{
    let mut i: usize = 0;
    while i < s.len()
        invariant
            i <= s.len(),
            forall|j: int| 0 <= j < i ==> s@[j] != x,
        decreases s.len() - i,
    {
        if s[i] == x {
            return Some(i);
        }
        i += 1;
    }
    None
}

/// Appends the identifier bytes of `v`.
fn push_id(out: &mut Vec<u8>, order: &Vec<i64>, v: Option<i64>)
    requires
        order@.no_duplicates(),
    ensures
        final(out)@ == old(out)@ + id_bytes(order@, v),
{
    if let Some(x) = v {
        match find_pos(order, x) {
            Some(i) => {
                proof {
                    assert(order@.contains(x));
                    let c = order@.index_of(x);
                    assert(order@[c] == x);
                    assert(c == i);
                }
                push_u32_le(out, i as u32);
            },
            None => {
                proof {
                    assert(old(out)@ + id_bytes(order@, v) =~= old(out)@);
                }
            },
        }
    } else {
        proof {
            assert(old(out)@ + id_bytes(order@, v) =~= old(out)@);
        }
    }
}

/// Compares two operations by name, then by arity.
fn key_less(a: &Operation, b: &Operation) -> (r: bool)
    ensures
        r == key_lt(*a, *b),
{
    if str_lt(a.sym.as_str(), b.sym.as_str()) {
        true
    } else if str_lt(b.sym.as_str(), a.sym.as_str()) {
        proof {
            lemma_seq_lt_total(a.sym@, b.sym@);
        }
        false
    } else {
        proof {
            lemma_seq_lt_total(a.sym@, b.sym@);
        }
        a.arity < b.arity
    }
}

/// The indices of the operations in the order of `sort_ops`.
fn sorted_op_indices(ops: &Vec<Operation>) -> (r: Vec<usize>)
    ensures
        forall|k: int| 0 <= k < r.len() ==> #[trigger] r@[k] < ops.len(),
        r@.map_values(|i: usize| ops@[i as int]) == sort_ops(ops@),
{
    let mut r: Vec<usize> = Vec::new();
    let mut i: usize = 0;
    proof {
        assert(r@.map_values(|i: usize| ops@[i as int]) =~= sort_ops(ops@.take(0)));
    }
    while i < ops.len()
        invariant
            i <= ops.len(),
            forall|k: int| 0 <= k < r.len() ==> #[trigger] r@[k] < i,
            r@.map_values(|j: usize| ops@[j as int]) == sort_ops(ops@.take(i as int)),
        decreases ops.len() - i,
    {
        let ghost m = r@.map_values(|j: usize| ops@[j as int]);
        let mut p: usize = 0;
        while p < r.len() && !key_less(&ops[i], &ops[r[p]])
            invariant
                p <= r.len(),
                i < ops.len(),
                forall|k: int| 0 <= k < r.len() ==> #[trigger] r@[k] < i,
                m == r@.map_values(|j: usize| ops@[j as int]),
                forall|k: int| 0 <= k < p ==> !key_lt(ops@[i as int], #[trigger] m[k]),
            decreases r.len() - p,
        {
            p += 1;
        }
        proof {
            lemma_insert_op_at(m, ops@[i as int], p as int);
            assert(ops@.take(i + 1).drop_last() =~= ops@.take(i as int));
            assert(ops@.take(i + 1).last() == ops@[i as int]);
        }
        r.insert(p, i);
        proof {
            assert(r@.map_values(|j: usize| ops@[j as int]) =~= m.insert(p as int, ops@[i as int]));
        }
        i += 1;
    }
    proof {
        assert(ops@.take(ops.len() as int) =~= ops@);
    }
    r
}

/// Inserting at the first position whose key is larger is `insert_op`.
proof fn lemma_insert_op_at(sorted: Seq<Operation>, o: Operation, p: int)
    requires
        0 <= p <= sorted.len(),
        forall|k: int| 0 <= k < p ==> !key_lt(o, #[trigger] sorted[k]),
        p < sorted.len() ==> key_lt(o, sorted[p]),
    ensures
        insert_op(sorted, o) == sorted.insert(p, o),
    decreases sorted.len(),
{
    if sorted.len() == 0 {
        assert(sorted.insert(p, o) =~= seq![o]);
    } else if p == 0 {
        assert(sorted.insert(p, o) =~= seq![o] + sorted);
    } else {
        let d = sorted.drop_first();
        assert(!key_lt(o, sorted[0]));
        assert forall|k: int| 0 <= k < p - 1 implies !key_lt(o, #[trigger] d[k]) by {
            assert(d[k] == sorted[k + 1]);
        }
        if p - 1 < d.len() {
            assert(d[p - 1] == sorted[p]);
        }
        lemma_insert_op_at(d, o, p - 1);
        assert(sorted.insert(p, o) =~= seq![sorted[0]] + d.insert(p - 1, o));
    }
}

/// Canonical fingerprint of the labelled unary algebra generated by `seed`.
pub fn unary_fingerprint(seed: i64, model: &Model) -> (r: Vec<u8>)
    requires
        model.wf(),
    ensures
        r@ == unary_fp(seed, model.operations@),
{
    let ghost ops = model.operations@;
    let elems = generated_unary_closure(seed, model);
    proof {
        lemma_sorted_same_set(elems@, closure_list(seed, ops));
    }
    let order = make_id_order(seed, &elems);
    proof {
        lemma_without(elems@, seed);
        let w = without(elems@, seed);
        assert(order@.no_duplicates()) by {
            assert forall|i: int, j: int| 0 <= i < order@.len() && 0 <= j < order@.len() && i != j implies order@[i]
                != order@[j] by {
                if i == 0 && j > 0 {
                    assert(order@[j] == w[j - 1]);
                    assert(w.contains(w[j - 1]));
                } else if j == 0 && i > 0 {
                    assert(order@[i] == w[i - 1]);
                    assert(w.contains(w[i - 1]));
                } else if i > 0 && j > 0 {
                    assert(order@[i] == w[i - 1]);
                    assert(order@[j] == w[j - 1]);
                    if i < j {
                        assert(w[i - 1] < w[j - 1]);
                    } else {
                        assert(w[j - 1] < w[i - 1]);
                    }
                }
            }
        }
    }
    let mut out: Vec<u8> = Vec::new();
    push_u32_le(&mut out, elems.len() as u32);
    let idx = sorted_op_indices(&model.operations);
    let ghost sorted = sort_ops(ops);
    let mut t: usize = 0;
    proof {
        assert(idx@.map_values(|i: usize| ops[i as int]).len() == idx.len());
        assert(out@ =~= u32_le(elems.len() as u32) + op_blocks(sorted.take(0), order@));
    }
    while t < idx.len()
        invariant
            t <= idx.len(),
            model.wf(),
            ops == model.operations@,
            order@.no_duplicates(),
            forall|k: int| 0 <= k < idx.len() ==> #[trigger] idx@[k] < ops.len(),
            idx@.map_values(|i: usize| ops[i as int]) == sorted,
            out@ == u32_le(elems.len() as u32) + op_blocks(sorted.take(t as int), order@),
        decreases idx.len() - t,
    {
        let op = &model.operations[idx[t]];
        proof {
            assert(sorted[t as int] == *op);
        }
        let ghost before = out@;
        push_u32_le(&mut out, op.arity as u32);
        push_bytes(&mut out, op.sym.as_str().as_bytes());
        out.push(0u8);
        let ghost head = out@;
        if op.arity == 0 {
            let empty: Vec<i64> = Vec::new();
            proof {
                assert(empty@ =~= Seq::<i64>::empty());
            }
            let v = op.call(empty.as_slice());
            push_id(&mut out, &order, v);
        } else if op.arity == 1 {
            let mut k: usize = 0;
            proof {
                assert(out@ =~= head + table_bytes(*op, order@, 0));
            }
            while k < order.len()
                invariant
                    k <= order.len(),
                    order@.no_duplicates(),
                    op.wf(),
                    op.arity == 1,
                    out@ == head + table_bytes(*op, order@, k as int),
                decreases order.len() - k,
            {
                let args: Vec<i64> = vec![order[k]];
                proof {
                    assert(args@ =~= seq![order@[k as int]]);
                }
                let v = op.call(args.as_slice());
                let ghost mid = out@;
                match v {
                    Some(x) => {
                        match find_pos(&order, x) {
                            Some(_) => {
                                push_u32_le(&mut out, k as u32);
                                push_id(&mut out, &order, v);
                                proof {
                                    assert(order@.contains(x));
                                    assert(out@ =~= head + table_bytes(*op, order@, k + 1));
                                }
                            },
                            None => {
                                proof {
                                    assert(out@ =~= head + table_bytes(*op, order@, k + 1));
                                }
                            },
                        }
                    },
                    None => {
                        proof {
                            assert(out@ =~= head + table_bytes(*op, order@, k + 1));
                        }
                    },
                }
                k += 1;
            }
        }
        proof {
            assert(sorted.take(t + 1).drop_last() =~= sorted.take(t as int));
            assert(sorted.take(t + 1).last() == *op);
            assert(out@ =~= u32_le(elems.len() as u32) + op_blocks(sorted.take(t + 1), order@));
        }
        t += 1;
    }
    proof {
        assert(sorted.take(idx.len() as int) =~= sorted);
        assert(idx@.map_values(|i: usize| ops[i as int]).len() == sorted.len());
    }
    out
}

/// Outcome of the unary decision.
#[derive(Clone, Debug, PartialEq, Eq)]
pub enum UnaryDecision {
    /// Definable: empty or the whole universe (no operations), or the fingerprint counts agree.
    Definable { reason: String },
    /// Not definable.
    NotDefinable { reason: String },
    /// The decision does not apply (arity other than one, or operations of arity above one).
    Skip,
}

/// Mathematical value of a decision.
pub enum UnaryDecisionV {
    Definable(Seq<char>),
    NotDefinable(Seq<char>),
    Skip,
}

/// View of a decision.
pub open spec fn decision_view(d: UnaryDecision) -> UnaryDecisionV {
    match d {
        UnaryDecision::Definable { reason } => UnaryDecisionV::Definable(reason@),
        UnaryDecision::NotDefinable { reason } => UnaryDecisionV::NotDefinable(reason@),
        UnaryDecision::Skip => UnaryDecisionV::Skip,
    }
}

/// Some operation has arity above one.
pub open spec fn has_nonunary(ops: Seq<Operation>) -> bool {
    exists|i: int| 0 <= i < ops.len() && (#[trigger] ops[i]).arity > 1
}

/// Some operation has positive arity.
pub open spec fn has_positive(ops: Seq<Operation>) -> bool {
    exists|i: int| 0 <= i < ops.len() && (#[trigger] ops[i]).arity > 0
}

/// `a` is the first coordinate of some tuple of `rows`.
pub open spec fn in_target(rows: Seq<Seq<i64>>, a: i64) -> bool {
    exists|i: int| 0 <= i < rows.len() && (#[trigger] rows[i]).len() > 0 && rows[i][0] == a
}

/// The first coordinates of the tuples.
pub open spec fn target_set(rows: Seq<Seq<i64>>) -> Set<i64> {
    Set::new(|a: i64| in_target(rows, a))
}

/// Number of positions of `u` whose element has fingerprint `h` (and, with `only_target`, lies in the target).
pub open spec fn fp_count(u: Seq<i64>, ops: Seq<Operation>, rows: Seq<Seq<i64>>, h: Seq<u8>, only_target: bool) -> nat
    decreases u.len(),
{
    if u.len() == 0 {
        0
    } else {
        fp_count(u.drop_last(), ops, rows, h, only_target) + if unary_fp(u.last(), ops) == h && (!only_target
            || in_target(rows, u.last())) {
            1nat
        } else {
            0nat
        }
    }
}

/// The text reporting a fingerprint whose counts differ.
pub open spec fn mix_reason(cr: int, ca: int) -> Seq<char> {
    "unary fingerprint mix: |R_h|="@ + int_text(cr) + " != |A_h|="@ + int_text(ca) + " (Castellano Cor.13)"@
}

/// The first position `j >= from` of the universe holding a target element whose fingerprint
/// counts differ, with the two counts.
pub open spec fn first_mix(u: Seq<i64>, ops: Seq<Operation>, rows: Seq<Seq<i64>>, from: int) -> Option<(nat, nat)>
    decreases u.len() - from,
{
    if from < 0 || from >= u.len() {
        None
    } else {
        let h = unary_fp(u[from], ops);
        let cr = fp_count(u, ops, rows, h, true);
        let ca = fp_count(u, ops, rows, h, false);
        if in_target(rows, u[from]) && cr != ca {
            Some((cr, ca))
        } else {
            first_mix(u, ops, rows, from + 1)
        }
    }
}

/// The decision for a target of the given arity and tuples in a model with universe `u`.
pub open spec fn decide_spec(u: Seq<i64>, ops: Seq<Operation>, rows: Seq<Seq<i64>>, arity: nat) -> UnaryDecisionV {
    if arity != 1 || has_nonunary(ops) {
        UnaryDecisionV::Skip
    } else if !has_positive(ops) {
        if target_set(rows) == Set::<i64>::empty() {
            UnaryDecisionV::Definable("unary no-ops: R=\u{2205} (Lean qfDefinable_unary_noFunctions)"@)
        } else if target_set(rows) == u.to_set() {
            UnaryDecisionV::Definable("unary no-ops: R=A (Lean qfDefinable_unary_noFunctions)"@)
        } else {
            UnaryDecisionV::NotDefinable("unary no-ops: R neither empty nor full"@)
        }
    } else {
        match first_mix(u, ops, rows, 0) {
            Some((cr, ca)) => UnaryDecisionV::NotDefinable(mix_reason(cr as int, ca as int)),
            None => UnaryDecisionV::Definable("unary fingerprint counts match (Castellano Cor.13)"@),
        }
    }
}

/// Tells whether some operation has arity above one.
fn has_nonunary_ops(ops: &Vec<Operation>) -> (r: bool)
    ensures
        r == has_nonunary(ops@),
{
    let mut i: usize = 0;
    while i < ops.len()
        invariant
            i <= ops.len(),
            forall|j: int| 0 <= j < i ==> (#[trigger] ops@[j]).arity <= 1,
        decreases ops.len() - i,
    {
        if ops[i].arity > 1 {
            return true;
        }
        i += 1;
    }
    false
}

/// Tells whether some operation has positive arity.
fn has_positive_ops(ops: &Vec<Operation>) -> (r: bool)
    ensures
        r == has_positive(ops@),
{
    let mut i: usize = 0;
    while i < ops.len()
        invariant
            i <= ops.len(),
            forall|j: int| 0 <= j < i ==> (#[trigger] ops@[j]).arity == 0,
        decreases ops.len() - i,
    {
        if ops[i].arity > 0 {
            return true;
        }
        i += 1;
    }
    false
}

/// Tells whether `a` is the first coordinate of some tuple of the relation.
fn target_has(target: &Relation, a: i64) -> (r: bool)
    ensures
        r == in_target(target.rows(), a),
{
    let mut i: usize = 0;
    while i < target.r.len()
        invariant
            i <= target.r.len(),
            forall|j: int| 0 <= j < i ==> !((#[trigger] target.rows()[j]).len() > 0 && target.rows()[j][0] == a),
        decreases target.r.len() - i,
    {
        proof {
            assert(target.rows()[i as int] == target.r@[i as int]@);
        }
        if target.r[i].len() > 0 && target.r[i][0] == a {
            return true;
        }
        i += 1;
    }
    false
}

/// Equality of byte strings.
fn bytes_eq(a: &Vec<u8>, b: &Vec<u8>) -> (r: bool)
    ensures
        r == (a@ == b@),
{
    if a.len() != b.len() {
        return false;
    }
    let mut i: usize = 0;
    while i < a.len()
        invariant
            i <= a.len(),
            a.len() == b.len(),
            forall|j: int| 0 <= j < i ==> a@[j] == b@[j],
        decreases a.len() - i,
    {
        if a[i] != b[i] {
            return false;
        }
        i += 1;
    }
    proof {
        assert(a@ =~= b@);
    }
    true
}

/// Decides quantifier-free definability of a target of arity one, or answers `Skip`.
pub fn decide_unary(model: &Model, target: &Relation) -> (r: UnaryDecision)
    requires
        model.wf(),
    ensures
        decision_view(r) == decide_spec(model.universe@, model.operations@, target.rows(), target.arity as nat),
        target.arity == 1 && !has_nonunary(model.operations@) && has_positive(model.operations@) ==> (r is Definable
            <==> forall|j: int, k: int|
            0 <= j < model.universe@.len() && 0 <= k < model.universe@.len() && in_target(
                target.rows(),
                #[trigger] model.universe@[j],
            ) && unary_fp(#[trigger] model.universe@[k], model.operations@) == unary_fp(
                model.universe@[j],
                model.operations@,
            ) ==> in_target(target.rows(), model.universe@[k])),
{
    let ghost u = model.universe@;
    let ghost ops = model.operations@;
    let ghost rows = target.rows();
    proof {
        if !has_nonunary(ops) && has_positive(ops) {
            law_unary_definable_iff_union_of_classes(u, ops, rows);
        }
    }
    if target.arity != 1 {
        return UnaryDecision::Skip;
    }
    if has_nonunary_ops(&model.operations) {
        return UnaryDecision::Skip;
    }
    if !has_positive_ops(&model.operations) {
        let mut any = false;
        let mut i: usize = 0;
        while i < target.r.len()
            invariant
                i <= target.r.len(),
                rows == target.rows(),
                any == exists|j: int| 0 <= j < i && (#[trigger] rows[j]).len() > 0,
            decreases target.r.len() - i,
        {
            proof {
                assert(rows[i as int] == target.r@[i as int]@);
            }
            if target.r[i].len() > 0 {
                any = true;
            }
            i += 1;
        }
        if !any {
            proof {
                assert(target_set(rows) =~= Set::<i64>::empty());
            }
            return UnaryDecision::Definable {
                reason: "unary no-ops: R=\u{2205} (Lean qfDefinable_unary_noFunctions)".to_owned(),
            };
        }
        proof {
            let j = choose|j: int| 0 <= j < rows.len() && (#[trigger] rows[j]).len() > 0;
            assert(target_set(rows).contains(rows[j][0]));
        }
        // R = A as sets: every first coordinate is in the universe and every element is in R.
        let mut full = true;
        let mut i: usize = 0;
        while i < target.r.len()
            invariant
                i <= target.r.len(),
                rows == target.rows(),
                u == model.universe@,
                full == forall|j: int| 0 <= j < i && (#[trigger] rows[j]).len() > 0 ==> u.contains(rows[j][0]),
            decreases target.r.len() - i,
        {
            proof {
                assert(rows[i as int] == target.r@[i as int]@);
            }
            if target.r[i].len() > 0 && !crate::util::elem_in(model.universe.as_slice(), target.r[i][0]) {
                full = false;
            }
            i += 1;
        }
        proof {
            if !full {
                let j = choose|j: int| 0 <= j < i && (#[trigger] rows[j]).len() > 0 && !u.contains(rows[j][0]);
                assert(target_set(rows).contains(rows[j][0]));
                assert(!u.to_set().contains(rows[j][0]));
            }
        }
        let mut k: usize = 0;
        while k < model.universe.len()
            invariant
                k <= model.universe.len(),
                rows == target.rows(),
                u == model.universe@,
                full ==> forall|j: int| 0 <= j < rows.len() && (#[trigger] rows[j]).len() > 0 ==> u.contains(rows[j][0]),
                full ==> forall|j: int| 0 <= j < k ==> in_target(rows, #[trigger] u[j]),
                !full ==> target_set(rows) != u.to_set(),
            decreases model.universe.len() - k,
        {
            if full && !target_has(target, model.universe[k]) {
                full = false;
                proof {
                    assert(u.to_set().contains(u[k as int]));
                    assert(!target_set(rows).contains(u[k as int]));
                }
            }
            k += 1;
        }
        proof {
            if full {
                assert forall|a: i64| target_set(rows).contains(a) <==> u.to_set().contains(a) by {
                    if u.contains(a) {
                        let j = choose|j: int| 0 <= j < u.len() && u[j] == a;
                        assert(in_target(rows, u[j]));
                    }
                    if in_target(rows, a) {
                        let j = choose|j: int| 0 <= j < rows.len() && (#[trigger] rows[j]).len() > 0 && rows[j][0] == a;
                        assert(u.contains(rows[j][0]));
                    }
                }
                assert(target_set(rows) =~= u.to_set());
            } else {
                // some tuple coordinate lies outside the universe, or an element lies outside R
                if forall|j: int| 0 <= j < rows.len() && (#[trigger] rows[j]).len() > 0 ==> u.contains(rows[j][0]) {
                } else {
                    let j = choose|j: int| !(0 <= j < rows.len() && (#[trigger] rows[j]).len() > 0 ==> u.contains(rows[j][0]));
                    assert(target_set(rows).contains(rows[j][0]));
                    assert(!u.to_set().contains(rows[j][0]));
                }
            }
        }
        if full {
            return UnaryDecision::Definable {
                reason: "unary no-ops: R=A (Lean qfDefinable_unary_noFunctions)".to_owned(),
            };
        }
        return UnaryDecision::NotDefinable { reason: "unary no-ops: R neither empty nor full".to_owned() };
    }
    // fingerprint counts
    let mut fps: Vec<Vec<u8>> = Vec::new();
    let mut ins: Vec<bool> = Vec::new();
    let mut k: usize = 0;
    while k < model.universe.len()
        invariant
            k <= model.universe.len(),
            model.wf(),
            u == model.universe@,
            ops == model.operations@,
            rows == target.rows(),
            fps.len() == k,
            ins.len() == k,
            forall|j: int| 0 <= j < k ==> (#[trigger] fps@[j])@ == unary_fp(u[j], ops),
            forall|j: int| 0 <= j < k ==> #[trigger] ins@[j] == in_target(rows, u[j]),
        decreases model.universe.len() - k,
    {
        fps.push(unary_fingerprint(model.universe[k], model));
        ins.push(target_has(target, model.universe[k]));
        k += 1;
    }
    let mut j: usize = 0;
    while j < model.universe.len()
        invariant
            j <= model.universe.len(),
            u == model.universe@,
            ops == model.operations@,
            rows == target.rows(),
            fps.len() == u.len(),
            ins.len() == u.len(),
            forall|j2: int| 0 <= j2 < u.len() ==> (#[trigger] fps@[j2])@ == unary_fp(u[j2], ops),
            forall|j2: int| 0 <= j2 < u.len() ==> #[trigger] ins@[j2] == in_target(rows, u[j2]),
            first_mix(u, ops, rows, 0) == first_mix(u, ops, rows, j as int),
            target.arity == 1,
            !has_nonunary(ops),
            has_positive(ops),
        decreases model.universe.len() - j,
    {
        if ins[j] {
            let mut cr: usize = 0;
            let mut ca: usize = 0;
            let mut t: usize = 0;
            let ghost h = unary_fp(u[j as int], ops);
            while t < model.universe.len()
                invariant
                    t <= u.len(),
                    j < u.len(),
                    u == model.universe@,
                    h == unary_fp(u[j as int], ops),
                    fps.len() == u.len(),
                    ins.len() == u.len(),
                    forall|j2: int| 0 <= j2 < u.len() ==> (#[trigger] fps@[j2])@ == unary_fp(u[j2], ops),
                    forall|j2: int| 0 <= j2 < u.len() ==> #[trigger] ins@[j2] == in_target(rows, u[j2]),
                    cr == fp_count(u.take(t as int), ops, rows, h, true),
                    ca == fp_count(u.take(t as int), ops, rows, h, false),
                    cr <= ca <= t,
                decreases u.len() - t,
            {
                proof {
                    assert(u.take(t + 1).drop_last() =~= u.take(t as int));
                    assert(u.take(t + 1).last() == u[t as int]);
                }
                if bytes_eq(&fps[t], &fps[j]) {
                    ca += 1;
                    if ins[t] {
                        cr += 1;
                    }
                }
                t += 1;
            }
            proof {
                assert(u.take(u.len() as int) =~= u);
            }
            if cr != ca {
                let mut reason = "unary fingerprint mix: |R_h|=".to_owned();
                push_usize(&mut reason, cr);
                push_str(&mut reason, " != |A_h|=");
                push_usize(&mut reason, ca);
                push_str(&mut reason, " (Castellano Cor.13)");
                proof {
                    assert(reason@ =~= mix_reason(cr as int, ca as int));
                    assert(fp_count(u, ops, rows, h, true) == cr);
                    assert(fp_count(u, ops, rows, h, false) == ca);
                    assert(in_target(rows, u[j as int]));
                    assert(first_mix(u, ops, rows, j as int) == Some((cr as nat, ca as nat)));
                    if !has_nonunary(model.operations@) && has_positive(model.operations@) {
                        law_unary_definable_iff_union_of_classes(model.universe@, model.operations@, target.rows());
                    }
                }
                return UnaryDecision::NotDefinable { reason };
            }
        }
        j += 1;
    }
    UnaryDecision::Definable { reason: "unary fingerprint counts match (Castellano Cor.13)".to_owned() }
}

/// One row of the unary decision's coverage for a target relation.
#[derive(Clone, Debug)]
pub struct UnaryAuditRow {
    pub target_sym: String,
    pub arity: usize,
    pub decision: String,
    pub has_nonunary_ops: bool,
    pub would_early_exit: bool,
    pub reason: String,
}

/// The label of a decision.
pub open spec fn decision_label(d: UnaryDecisionV) -> Seq<char> {
    match d {
        UnaryDecisionV::Skip => "Skip"@,
        UnaryDecisionV::Definable(_) => "Definable"@,
        UnaryDecisionV::NotDefinable(_) => "NotDefinable"@,
    }
}

/// The reason of a decision (`skip` for `Skip`).
pub open spec fn decision_reason(d: UnaryDecisionV) -> Seq<char> {
    match d {
        UnaryDecisionV::Skip => "skip"@,
        UnaryDecisionV::Definable(r) => r,
        UnaryDecisionV::NotDefinable(r) => r,
    }
}

/// Target relations: those whose name starts with `T`.
pub open spec fn is_target_name(s: Seq<char>) -> bool {
    s.len() > 0 && s[0] == 'T'
}

/// The target relations of a list, in order.
pub open spec fn target_relations(rels: Seq<Relation>) -> Seq<Relation>
    decreases rels.len(),
{
    if rels.len() == 0 {
        Seq::empty()
    } else if is_target_name(rels.last().sym@) {
        target_relations(rels.drop_last()).push(rels.last())
    } else {
        target_relations(rels.drop_last())
    }
}

/// The row describing the decision for one target relation.
pub open spec fn audit_row_ok(row: UnaryAuditRow, model: Model, rel: Relation) -> bool {
    let d = decide_spec(model.universe@, model.operations@, rel.rows(), rel.arity as nat);
    &&& row.target_sym@ == rel.sym@
    &&& row.arity == rel.arity
    &&& row.decision@ == decision_label(d)
    &&& row.has_nonunary_ops == has_nonunary(model.operations@)
    &&& row.would_early_exit == !(d is Skip)
    &&& row.reason@ == decision_reason(d)
}

/// The first character of a string is `T`.
fn starts_with_t(s: &String) -> (r: bool)
    ensures
        r == is_target_name(s@),
{
    let cs = crate::strs::chars_of(s.as_str());
    cs.len() > 0 && cs[0] == 'T'
}

/// Classifies every target relation (name starting with `T`) by `decide_unary`.
pub fn audit_unary_targets(model: &Model) -> (res: Vec<UnaryAuditRow>)
    requires
        model.wf(),
    ensures
        res.len() == target_relations(model.relations@).len(),
        forall|k: int| 0 <= k < res.len() ==> audit_row_ok(#[trigger] res@[k], *model, target_relations(model.relations@)[k]),
{
    let nonunary = has_nonunary_ops(&model.operations);
    let mut res: Vec<UnaryAuditRow> = Vec::new();
    let mut i: usize = 0;
    while i < model.relations.len()
        invariant
            i <= model.relations.len(),
            model.wf(),
            nonunary == has_nonunary(model.operations@),
            res.len() == target_relations(model.relations@.take(i as int)).len(),
            forall|k: int| 0 <= k < res.len() ==> audit_row_ok(#[trigger] res@[k], *model, target_relations(model.relations@.take(i as int))[k]),
        decreases model.relations.len() - i,
    {
        let rel = &model.relations[i];
        let ghost prev = target_relations(model.relations@.take(i as int));
        proof {
            assert(model.relations@.take(i + 1).drop_last() =~= model.relations@.take(i as int));
            assert(model.relations@.take(i + 1).last() == *rel);
        }
        if starts_with_t(&rel.sym) {
            let decision = decide_unary(model, rel);
            let ghost d = decision_view(decision);
            let (label, early, reason) = match decision {
                UnaryDecision::Skip => ("Skip".to_owned(), false, "skip".to_owned()),
                UnaryDecision::Definable { reason } => ("Definable".to_owned(), true, reason),
                UnaryDecision::NotDefinable { reason } => ("NotDefinable".to_owned(), true, reason),
            };
            let row = UnaryAuditRow {
                target_sym: rel.sym.clone(),
                arity: rel.arity,
                decision: label,
                has_nonunary_ops: nonunary,
                would_early_exit: early,
                reason,
            };
            let ghost before = res@;
            res.push(row);
            proof {
                assert forall|k: int| 0 <= k < res.len() implies audit_row_ok(#[trigger] res@[k], *model, prev.push(*rel)[k]) by {
                    if k < before.len() {
                        assert(res@[k] == before[k]);
                    }
                }
            }
        }
        i += 1;
    }
    proof {
        assert(model.relations@.take(model.relations.len() as int) =~= model.relations@);
    }
    res
}

/// The count of target positions of a fingerprint never exceeds the count of all its positions,
/// and equals it exactly when every position of that fingerprint holds a target element.
proof fn lemma_fp_count_target(u: Seq<i64>, ops: Seq<Operation>, rows: Seq<Seq<i64>>, h: Seq<u8>)
    ensures
        fp_count(u, ops, rows, h, true) <= fp_count(u, ops, rows, h, false),
        fp_count(u, ops, rows, h, true) == fp_count(u, ops, rows, h, false) <==> forall|k: int|
            0 <= k < u.len() && unary_fp(#[trigger] u[k], ops) == h ==> in_target(rows, u[k]),
    decreases u.len(),
{
    if u.len() > 0 {
        let d = u.drop_last();
        lemma_fp_count_target(d, ops, rows, h);
        let last = u.len() - 1;
        assert(u[last] == u.last());
        if forall|k: int| 0 <= k < u.len() && unary_fp(#[trigger] u[k], ops) == h ==> in_target(rows, u[k]) {
            assert forall|k: int| 0 <= k < d.len() && unary_fp(#[trigger] d[k], ops) == h implies in_target(rows, d[k]) by {
                assert(d[k] == u[k]);
            }
        }
        if fp_count(u, ops, rows, h, true) == fp_count(u, ops, rows, h, false) {
            assert forall|k: int| 0 <= k < u.len() && unary_fp(#[trigger] u[k], ops) == h implies in_target(rows, u[k]) by {
                if k < last {
                    assert(d[k] == u[k]);
                }
            }
        }
    }
}

/// Where `first_mix` finds nothing from `from` on, every target position from there on has
/// as many positions of its fingerprint in the target as in the universe, and conversely.
proof fn lemma_first_mix_none(u: Seq<i64>, ops: Seq<Operation>, rows: Seq<Seq<i64>>, from: int)
    requires
        0 <= from <= u.len(),
    ensures
        first_mix(u, ops, rows, from) is None <==> forall|j: int|
            from <= j < u.len() && in_target(rows, #[trigger] u[j]) ==> fp_count(u, ops, rows, unary_fp(u[j], ops), true)
                == fp_count(u, ops, rows, unary_fp(u[j], ops), false),
    decreases u.len() - from,
{
    if from < u.len() {
        lemma_first_mix_none(u, ops, rows, from + 1);
    }
}

/// Law: a unary target with unary operations (at least one of positive arity) is decided
/// definable exactly when it is a union of fingerprint classes: every element of the universe
/// that shares the fingerprint of a target element of the universe lies in the target.
pub proof fn law_unary_definable_iff_union_of_classes(u: Seq<i64>, ops: Seq<Operation>, rows: Seq<Seq<i64>>)
    requires
        !has_nonunary(ops),
        has_positive(ops),
    ensures
        decide_spec(u, ops, rows, 1) is Definable <==> forall|j: int, k: int|
            0 <= j < u.len() && 0 <= k < u.len() && in_target(rows, #[trigger] u[j]) && unary_fp(#[trigger] u[k], ops)
                == unary_fp(u[j], ops) ==> in_target(rows, u[k]),
{
    lemma_first_mix_none(u, ops, rows, 0);
    if decide_spec(u, ops, rows, 1) is Definable {
        assert forall|j: int, k: int|
            0 <= j < u.len() && 0 <= k < u.len() && in_target(rows, #[trigger] u[j]) && unary_fp(#[trigger] u[k], ops)
                == unary_fp(u[j], ops) implies in_target(rows, u[k]) by {
            lemma_fp_count_target(u, ops, rows, unary_fp(u[j], ops));
        }
    }
    if forall|j: int, k: int|
        0 <= j < u.len() && 0 <= k < u.len() && in_target(rows, #[trigger] u[j]) && unary_fp(#[trigger] u[k], ops)
            == unary_fp(u[j], ops) ==> in_target(rows, u[k]) {
        assert forall|j: int|
            0 <= j < u.len() && in_target(rows, #[trigger] u[j]) implies fp_count(u, ops, rows, unary_fp(u[j], ops), true)
            == fp_count(u, ops, rows, unary_fp(u[j], ops), false) by {
            lemma_fp_count_target(u, ops, rows, unary_fp(u[j], ops));
            assert forall|k: int| 0 <= k < u.len() && unary_fp(#[trigger] u[k], ops) == unary_fp(u[j], ops) implies in_target(
                rows,
                u[k],
            ) by {}
        }
    }
}


} // verus!
