//! Approximate check of quantifier-free definability: each tuple is labelled
//! by a canonical fingerprint of the subalgebra its coordinates generate; a
//! target holding one tuple of a fingerprint but not another is not a union
//! of these classes and so is not quantifier-free definable.

use vstd::prelude::*;

use crate::engines::partition::{all_tuples, tuples_over};
use crate::engines::terms::{extend_all, index_tuples, lemma_index_tuples};
use crate::engines::tuple_model_hash::{
    fresh, has_value, lemma_fresh, lemma_missing, lemma_table_vals_has, lemma_table_value, missing, table_vals,
};
use crate::first_order::models::Model;
use crate::engines::terms::groups_view;
use crate::first_order::relops::Operation;
use crate::strs::{lemma_seq_lt_irrefl, lemma_seq_lt_total, lemma_seq_lt_trans, seq_lt, str_lt};

verus! {

proof fn lemma_extend_all_has(rs: Seq<Seq<usize>>, n: usize, w: int, j: usize)
    requires
        0 <= w < rs.len(),
        j < n,
    ensures
        extend_all(rs, n).contains(rs[w].push(j)),
    decreases rs.len(),
{
    let d = rs.drop_last();
    let a = extend_all(d, n);
    let b = Seq::new(n as nat, |x: int| rs.last().push(x as usize));
    assert(extend_all(rs, n) == a + b);
    if w == rs.len() - 1 {
        assert(b[j as int] == rs[w].push(j));
        assert((a + b)[a.len() + j] == rs[w].push(j));
    } else {
        assert(d[w] == rs[w]);
        lemma_extend_all_has(d, n, w, j);
        let k = choose|k: int| 0 <= k < a.len() && a[k] == d[w].push(j);
        assert((a + b)[k] == rs[w].push(j));
    }
}

/// Every index tuple of length `k` below `n` is enumerated.
pub proof fn lemma_index_tuples_complete(n: usize, k: nat, it: Seq<usize>)
    requires
        it.len() == k,
        forall|x: int| 0 <= x < k ==> it[x] < n,
    ensures
        index_tuples(n, k).contains(it),
    decreases k,
{
    if k == 0 {
        assert(it =~= Seq::<usize>::empty());
        assert(index_tuples(n, 0)[0] == it);
    } else {
        let pre = it.drop_last();
        lemma_index_tuples_complete(n, (k - 1) as nat, pre);
        let rs = index_tuples(n, (k - 1) as nat);
        let w = choose|w: int| 0 <= w < rs.len() && rs[w] == pre;
        lemma_extend_all_has(rs, n, w, it.last());
        assert(pre.push(it.last()) =~= it);
    }
}

/// Every tuple with coordinates in `u` is enumerated among the tuples over `u`.
pub proof fn lemma_all_tuples_complete(u: Seq<i64>, t: Seq<i64>)
    requires
        u.len() <= usize::MAX,
        forall|x: int| 0 <= x < t.len() ==> u.contains(#[trigger] t[x]),
    ensures
        all_tuples(u, t.len()).contains(t),
{
    let it = Seq::new(t.len(), |x: int| (choose|i: int| 0 <= i < u.len() && u[i] == t[x]) as usize);
    assert forall|x: int| 0 <= x < t.len() implies it[x] < u.len() as usize && u[it[x] as int] == t[x] by {
        assert(u.contains(t[x]));
        let i = choose|i: int| 0 <= i < u.len() && u[i] == t[x];
        assert(it[x] == i as usize);
        assert(i as usize == i);
    }
    lemma_index_tuples_complete(u.len() as usize, t.len(), it);
    let ts = index_tuples(u.len() as usize, t.len());
    let w = choose|w: int| 0 <= w < ts.len() && ts[w] == it;
    assert(all_tuples(u, t.len())[w] =~= t);
}

/// Every coordinate of an enumerated tuple over `u` lies in `u`.
pub proof fn lemma_all_tuples_sound(u: Seq<i64>, k: nat, w: int)
    requires
        0 <= w < all_tuples(u, k).len(),
    ensures
        all_tuples(u, k)[w].len() == k,
        forall|x: int| 0 <= x < k ==> u.contains(#[trigger] all_tuples(u, k)[w][x]),
{
    lemma_index_tuples(u.len() as usize, k);
    let it = index_tuples(u.len() as usize, k)[w];
    assert forall|x: int| 0 <= x < k implies u.contains(#[trigger] all_tuples(u, k)[w][x]) by {
        assert(all_tuples(u, k)[w][x] == u[it[x] as int]);
    }
}

/// The value, when there is one, lies in `s`.
pub open spec fn value_in(s: Set<i64>, o: Option<i64>) -> bool {
    match o {
        Some(v) => s.contains(v),
        None => true,
    }
}

/// `s` is closed under the operations: a defined value on arguments from `s` lies in `s`.
pub open spec fn ops_closed(ops: Seq<Operation>, s: Set<i64>) -> bool {
    forall|k: int, args: Seq<i64>|
        0 <= k < ops.len() && args.len() == ops[k].arity && (forall|x: int| 0 <= x < args.len() ==> s.contains(args[x]))
            ==> value_in(s, #[trigger] ops[k].spec_call(args))
}

/// `s` holds every generator.
pub open spec fn holds_all(s: Set<i64>, gens: Seq<i64>) -> bool {
    forall|x: int| 0 <= x < gens.len() ==> s.contains(gens[x])
}

/// `v` lies in every closed set that holds the generators.
pub open spec fn in_generated(ops: Seq<Operation>, gens: Seq<i64>, v: i64) -> bool {
    forall|s: Set<i64>| ops_closed(ops, s) && holds_all(s, gens) ==> #[trigger] s.contains(v)
}

/// The subalgebra generated by `gens`: the least closed set holding them.
pub open spec fn generated(ops: Seq<Operation>, gens: Seq<i64>) -> Set<i64> {
    Set::new(|v: i64| in_generated(ops, gens, v))
}

/// The elements of the subalgebra generated by `gens`, each once.
pub fn generated_elems(model: &Model, gens: &[i64]) -> (r: Vec<i64>)
    requires
        model.wf(),
    ensures
        r@.to_set() == generated(model.operations@, gens@),
        r@.no_duplicates(),
{
    let ghost ops = model.operations@;
    let ghost cands = gens@ + table_vals(ops);
    let mut elems: Vec<i64> = Vec::new();
    let mut g: usize = 0;
    while g < gens.len()
        invariant
            g <= gens.len(),
            cands == gens@ + table_vals(ops),
            ops == model.operations@,
            elems@.no_duplicates(),
            forall|i: int| 0 <= i < elems.len() ==> cands.contains(#[trigger] elems@[i]),
            forall|i: int| 0 <= i < elems.len() ==> in_generated(ops, gens@, #[trigger] elems@[i]),
            forall|x: int| 0 <= x < g ==> elems@.contains(#[trigger] gens@[x]),
        decreases gens.len() - g,
    {
        let x = gens[g];
        proof {
            assert(cands[g as int] == x);
            assert forall|s: Set<i64>| ops_closed(ops, s) && holds_all(s, gens@) implies #[trigger] s.contains(x) by {
                assert(s.contains(gens@[g as int]));
            }
        }
        let ghost before = elems@;
        if !has_value(&elems, x) {
            elems.push(x);
            proof {
                assert(elems@[elems.len() - 1] == x);
            }
        }
        proof {
            assert(elems@.contains(gens@[g as int]));
            assert forall|y: int| 0 <= y < g + 1 implies elems@.contains(#[trigger] gens@[y]) by {
                if y < g {
                    let i = choose|i: int| 0 <= i < before.len() && before[i] == gens@[y];
                    assert(elems@[i] == gens@[y]);
                }
            }
        }
        g += 1;
    }
    loop
        invariant
            model.wf(),
            cands == gens@ + table_vals(ops),
            ops == model.operations@,
            elems@.no_duplicates(),
            forall|i: int| 0 <= i < elems.len() ==> cands.contains(#[trigger] elems@[i]),
            forall|i: int| 0 <= i < elems.len() ==> in_generated(ops, gens@, #[trigger] elems@[i]),
            forall|x: int| 0 <= x < gens.len() ==> elems@.contains(#[trigger] gens@[x]),
        ensures
            elems@.no_duplicates(),
            forall|i: int| 0 <= i < elems.len() ==> in_generated(ops, gens@, #[trigger] elems@[i]),
            forall|x: int| 0 <= x < gens.len() ==> elems@.contains(#[trigger] gens@[x]),
            ops_closed(ops, elems@.to_set()),
        decreases missing(cands, elems@),
    {
        let snapshot = crate::util::copy_tuple(elems.as_slice());
        let ghost start = elems@;
        let mut changed = false;
        let mut k: usize = 0;
        while k < model.operations.len()
            invariant
                k <= model.operations.len(),
                model.wf(),
                cands == gens@ + table_vals(ops),
                ops == model.operations@,
                snapshot@ == start,
                elems@.take(start.len() as int) == start,
                elems.len() >= start.len(),
                changed == (elems.len() > start.len()),
                elems@.no_duplicates(),
                forall|i: int| 0 <= i < elems.len() ==> cands.contains(#[trigger] elems@[i]),
                forall|i: int| 0 <= i < elems.len() ==> in_generated(ops, gens@, #[trigger] elems@[i]),
                forall|x: int| 0 <= x < gens.len() ==> elems@.contains(#[trigger] gens@[x]),
                forall|kk: int, w: int|
                    0 <= kk < k && 0 <= w < all_tuples(start, ops[kk].arity as nat).len() ==> value_in(
                        elems@.to_set(),
                        ops[kk].spec_call(#[trigger] all_tuples(start, ops[kk].arity as nat)[w]),
                    ),
            decreases model.operations.len() - k,
        {
            let op = &model.operations[k];
            let ts = tuples_over(&snapshot, op.arity);
            let ghost tv = ts.deep_view();
            let mut t: usize = 0;
            while t < ts.len()
                invariant
                    t <= ts.len(),
                    k < model.operations.len(),
                    model.wf(),
                    *op == ops[k as int],
                    cands == gens@ + table_vals(ops),
                    ops == model.operations@,
                    tv == ts.deep_view(),
                    tv == all_tuples(start, op.arity as nat),
                    snapshot@ == start,
                    elems@.take(start.len() as int) == start,
                    elems.len() >= start.len(),
                    changed == (elems.len() > start.len()),
                    elems@.no_duplicates(),
                    forall|i: int| 0 <= i < elems.len() ==> cands.contains(#[trigger] elems@[i]),
                    forall|i: int| 0 <= i < elems.len() ==> in_generated(ops, gens@, #[trigger] elems@[i]),
                    forall|x: int| 0 <= x < gens.len() ==> elems@.contains(#[trigger] gens@[x]),
                    forall|kk: int, w: int|
                        0 <= kk < k && 0 <= w < all_tuples(start, ops[kk].arity as nat).len() ==> value_in(
                            elems@.to_set(),
                            ops[kk].spec_call(#[trigger] all_tuples(start, ops[kk].arity as nat)[w]),
                        ),
                    forall|w: int| 0 <= w < t ==> value_in(elems@.to_set(), op.spec_call(#[trigger] tv[w])),
                decreases ts.len() - t,
            {
                proof {
                    assert(tv[t as int] == ts@[t as int]@);
                    assert(op.wf());
                }
                let res = op.call(ts[t].as_slice());
                let ghost before = elems@;
                if let Some(v) = res {
                    if !has_value(&elems, v) {
                        proof {
                            let args = tv[t as int];
                            lemma_all_tuples_sound(start, op.arity as nat, t as int);
                            lemma_table_value(op.op@, args);
                            let e = choose|e: int| 0 <= e < op.op@.len() && op.op@[e].1 == v;
                            lemma_table_vals_has(ops, k as int, e);
                            let w = choose|w: int| 0 <= w < table_vals(ops).len() && table_vals(ops)[w] == v;
                            assert(cands[gens.len() + w] == v);
                            assert forall|s: Set<i64>| ops_closed(ops, s) && holds_all(s, gens@) implies #[trigger] s.contains(v) by {
                                assert forall|x: int| 0 <= x < args.len() implies s.contains(args[x]) by {
                                    assert(start.contains(args[x]));
                                    let i = choose|i: int| 0 <= i < start.len() && start[i] == args[x];
                                    assert(elems@[i] == start[i]);
                                    assert(in_generated(ops, gens@, elems@[i]));
                                }
                                assert(value_in(s, ops[k as int].spec_call(args)));
                            }
                        }
                        elems.push(v);
                        changed = true;
                        proof {
                            assert(elems@.take(start.len() as int) =~= before.take(start.len() as int));
                            assert(elems@[elems.len() - 1] == v);
                            assert(elems@.contains(v));
                        }
                    } else {
                        proof {
                            assert(elems@.contains(v));
                        }
                    }
                }
                proof {
                    assert forall|v: i64| before.contains(v) implies elems@.contains(v) by {
                        let i = choose|i: int| 0 <= i < before.len() && before[i] == v;
                        assert(elems@[i] == v);
                    }
                    assert forall|w: int| 0 <= w < t + 1 implies value_in(elems@.to_set(), op.spec_call(#[trigger] tv[w])) by {
                        if w < t {
                            if let Some(x) = op.spec_call(tv[w]) {
                                assert(before.to_set().contains(x));
                            }
                        } else {
                            assert(op.spec_call(tv[w]) == res);
                            if let Some(x) = op.spec_call(tv[w]) {
                                assert(elems@.contains(x));
                                assert(elems@.to_set().contains(x));
                            }
                        }
                    }
                    assert forall|kk: int, w: int|
                        0 <= kk < k && 0 <= w < all_tuples(start, ops[kk].arity as nat).len() implies value_in(
                            elems@.to_set(),
                            ops[kk].spec_call(#[trigger] all_tuples(start, ops[kk].arity as nat)[w]),
                        ) by {
                        if let Some(x) = ops[kk].spec_call(all_tuples(start, ops[kk].arity as nat)[w]) {
                            assert(before.to_set().contains(x));
                        }
                    }
                }
                t += 1;
            }
            k += 1;
        }
        if !changed {
            proof {
                assert(elems@ =~= start);
                assert forall|kk: int, args: Seq<i64>|
                    0 <= kk < ops.len() && args.len() == ops[kk].arity && (forall|x: int| 0 <= x < args.len() ==> elems@.to_set().contains(args[x]))
                        implies value_in(elems@.to_set(), #[trigger] ops[kk].spec_call(args)) by {
                    assert forall|x: int| 0 <= x < args.len() implies start.contains(#[trigger] args[x]) by {
                        assert(elems@.to_set().contains(args[x]));
                    }
                    lemma_all_tuples_complete(start, args);
                    let w = choose|w: int| 0 <= w < all_tuples(start, args.len()).len() && all_tuples(start, args.len())[w] == args;
                    assert(value_in(elems@.to_set(), ops[kk].spec_call(all_tuples(start, ops[kk].arity as nat)[w])));
                }
            }
            break;
        }
        proof {
            let v = elems@[start.len() as int];
            assert(!start.contains(v)) by {
                if start.contains(v) {
                    let i = choose|i: int| 0 <= i < start.len() && start[i] == v;
                    assert(elems@[i] == start[i]);
                }
            }
            assert forall|y: i64| start.contains(y) implies elems@.contains(y) by {
                let i = choose|i: int| 0 <= i < start.len() && start[i] == y;
                assert(elems@[i] == y);
            }
            assert(cands.contains(v));
            lemma_missing(cands, start, elems@, v);
        }
    }
    proof {
        let st = elems@.to_set();
        assert forall|v: i64| #[trigger] st.contains(v) <==> generated(ops, gens@).contains(v) by {
            if st.contains(v) {
                let i = choose|i: int| 0 <= i < elems.len() && elems@[i] == v;
                assert(in_generated(ops, gens@, elems@[i]));
            }
            if generated(ops, gens@).contains(v) {
                assert(holds_all(st, gens@)) by {
                    assert forall|x: int| 0 <= x < gens.len() implies st.contains(gens@[x]) by {
                        assert(elems@.contains(gens@[x]));
                    }
                }
                assert(in_generated(ops, gens@, v));
            }
        }
        assert(st =~= generated(ops, gens@));
    }
    elems
}

/// Order of operations by name, then by arity.
pub open spec fn name_lt(a: (Seq<char>, nat), b: (Seq<char>, nat)) -> bool {
    seq_lt(a.0, b.0) || (a.0 == b.0 && a.1 < b.1)
}

proof fn lemma_name_lt(a: (Seq<char>, nat), b: (Seq<char>, nat), c: (Seq<char>, nat))
    ensures
        !name_lt(a, a),
        name_lt(a, b) && name_lt(b, c) ==> name_lt(a, c),
        a != b ==> (name_lt(a, b) || name_lt(b, a)),
        !(name_lt(a, b) && name_lt(b, a)),
{
    lemma_seq_lt_irrefl(a.0);
    lemma_seq_lt_irrefl(b.0);
    lemma_seq_lt_total(a.0, b.0);
    lemma_seq_lt_total(b.0, c.0);
    lemma_seq_lt_total(a.0, c.0);
    if seq_lt(a.0, b.0) && seq_lt(b.0, c.0) {
        lemma_seq_lt_trans(a.0, b.0, c.0);
    }
    if seq_lt(a.0, b.0) && seq_lt(b.0, a.0) {
        lemma_seq_lt_trans(a.0, b.0, a.0);
    }
}

/// Strictly increasing by name.
pub open spec fn names_sorted(gs: Seq<(Seq<char>, nat)>) -> bool {
    forall|i: int, j: int| 0 <= i < j < gs.len() ==> name_lt(#[trigger] gs[i], #[trigger] gs[j])
}

/// `gs` lists the operations as `(name, arity)`, strictly by name.
pub open spec fn is_name_groups(gs: Seq<(Seq<char>, nat)>, ops: Seq<Operation>) -> bool {
    &&& names_sorted(gs)
    &&& forall|g: (Seq<char>, nat)|
        #[trigger] gs.contains(g) <==> exists|i: int| 0 <= i < ops.len() && g == (#[trigger] ops[i].sym@, ops[i].arity as nat)
}

/// The operations in name order.
pub open spec fn name_order(ops: Seq<Operation>) -> Seq<(Seq<char>, nat)> {
    choose|gs: Seq<(Seq<char>, nat)>| is_name_groups(gs, ops)
}

/// Name order on executable groups.
fn name_less(a: &(String, usize), b: &(String, usize)) -> (r: bool)
    ensures
        r == name_lt((a.0@, a.1 as nat), (b.0@, b.1 as nat)),
{
    if str_lt(a.0.as_str(), b.0.as_str()) {
        true
    } else {
        crate::engines::dispatch::str_eq(a.0.as_str(), b.0.as_str()) && a.1 < b.1
    }
}

/// Two lists strictly increasing by name with the same elements are equal.
proof fn lemma_names_unique(a: Seq<(Seq<char>, nat)>, b: Seq<(Seq<char>, nat)>)
    requires
        names_sorted(a),
        names_sorted(b),
        forall|g: (Seq<char>, nat)| #[trigger] a.contains(g) <==> b.contains(g),
    ensures
        a == b,
    decreases a.len(),
{
    if a.len() == 0 {
        if b.len() > 0 {
            assert(b.contains(b[0]));
            assert(a.contains(b[0]));
            let w = choose|w: int| 0 <= w < a.len() && a[w] == b[0];
            assert(false);
        }
        assert(a =~= b);
    } else {
        assert(a.contains(a[0]));
        assert(b.contains(a[0]));
        let ka = choose|k: int| 0 <= k < b.len() && b[k] == a[0];
        assert(b.len() > 0);
        assert(b.contains(b[0]));
        assert(a.contains(b[0]));
        let kb = choose|k: int| 0 <= k < a.len() && a[k] == b[0];
        if a[0] != b[0] {
            assert(ka > 0 && kb > 0);
            assert(name_lt(b[0], b[ka]));
            assert(name_lt(a[0], a[kb]));
            lemma_name_lt(a[0], b[0], a[0]);
        }
        let a1 = a.drop_first();
        let b1 = b.drop_first();
        assert(names_sorted(a1)) by {
            assert forall|i: int, j: int| 0 <= i < j < a1.len() implies name_lt(#[trigger] a1[i], #[trigger] a1[j]) by {
                assert(a1[i] == a[i + 1] && a1[j] == a[j + 1]);
            }
        }
        assert(names_sorted(b1)) by {
            assert forall|i: int, j: int| 0 <= i < j < b1.len() implies name_lt(#[trigger] b1[i], #[trigger] b1[j]) by {
                assert(b1[i] == b[i + 1] && b1[j] == b[j + 1]);
            }
        }
        assert forall|x: (Seq<char>, nat)| #[trigger] a1.contains(x) <==> b1.contains(x) by {
            if a1.contains(x) {
                let i = choose|i: int| 0 <= i < a1.len() && a1[i] == x;
                assert(a[i + 1] == x);
                assert(name_lt(a[0], x));
                lemma_name_lt(x, x, x);
                assert(a.contains(x));
                let j = choose|j: int| 0 <= j < b.len() && b[j] == x;
                assert(j != 0);
                assert(b1[j - 1] == x);
            }
            if b1.contains(x) {
                let i = choose|i: int| 0 <= i < b1.len() && b1[i] == x;
                assert(b[i + 1] == x);
                assert(name_lt(b[0], x));
                lemma_name_lt(x, x, x);
                assert(b.contains(x));
                assert(a.contains(x));
                let j = choose|j: int| 0 <= j < a.len() && a[j] == x;
                assert(j != 0);
                assert(a1[j - 1] == x);
            }
        }
        lemma_names_unique(a1, b1);
        assert(a =~= seq![a[0]] + a1);
        assert(b =~= seq![b[0]] + b1);
    }
}

/// The operations as `(name, arity)`, by name.
fn name_groups(ops: &Vec<Operation>) -> (gs: Vec<(String, usize)>)
    requires
        forall|i: int, j: int| 0 <= i < j < ops.len() ==> (#[trigger] ops@[i]).sym@ != (#[trigger] ops@[j]).sym@,
    ensures
        is_name_groups(groups_view(gs@), ops@),
{
    let mut r: Vec<(String, usize)> = Vec::new();
    let mut i: usize = 0;
    proof {
        assert(groups_view(r@) =~= Seq::<(Seq<char>, nat)>::empty());
    }
    while i < ops.len()
        invariant
            i <= ops.len(),
            forall|a: int, b: int| 0 <= a < b < ops.len() ==> (#[trigger] ops@[a]).sym@ != (#[trigger] ops@[b]).sym@,
            names_sorted(groups_view(r@)),
            forall|g: (Seq<char>, nat)|
                #[trigger] groups_view(r@).contains(g) <==> exists|k: int|
                    0 <= k < i && g == (#[trigger] ops@[k].sym@, ops@[k].arity as nat),
        decreases ops.len() - i,
    {
        let x = (ops[i].sym.clone(), ops[i].arity);
        let ghost xv = (x.0@, x.1 as nat);
        let ghost before = groups_view(r@);
        proof {
            assert(!before.contains(xv)) by {
                if before.contains(xv) {
                    let k = choose|k: int|
                        0 <= k < i && xv == (#[trigger] ops@[k].sym@, ops@[k].arity as nat);
                    assert(ops@[k].sym@ == ops@[i as int].sym@);
                }
            }
        }
        let mut pos: usize = 0;
        while pos < r.len() && name_less(&r[pos], &x)
            invariant
                pos <= r.len(),
                before == groups_view(r@),
                xv == (x.0@, x.1 as nat),
                forall|k: int| 0 <= k < pos ==> name_lt(#[trigger] before[k], xv),
            decreases r.len() - pos,
        {
            proof {
                assert(before[pos as int] == (r@[pos as int].0@, r@[pos as int].1 as nat));
            }
            pos += 1;
        }
        proof {
            if pos < r.len() {
                assert(before[pos as int] == (r@[pos as int].0@, r@[pos as int].1 as nat));
                assert(!name_lt(before[pos as int], xv));
                assert(before.contains(before[pos as int]));
                lemma_name_lt(before[pos as int], xv, xv);
                assert(name_lt(xv, before[pos as int]));
            }
        }
        r.insert(pos, x);
        proof {
            let after = groups_view(r@);
            assert(after =~= before.insert(pos as int, xv));
            assert forall|a: int, b: int| 0 <= a < b < after.len() implies name_lt(#[trigger] after[a], #[trigger] after[b]) by {
                if b < pos {
                    assert(after[a] == before[a] && after[b] == before[b]);
                } else if b == pos {
                    assert(after[a] == before[a]);
                } else if a == pos {
                    assert(after[b] == before[b - 1]);
                    if b - 1 > pos {
                        lemma_name_lt(xv, before[pos as int], before[b - 1]);
                    }
                } else if a < pos {
                    assert(after[a] == before[a] && after[b] == before[b - 1]);
                    lemma_name_lt(before[a], xv, before[b - 1]);
                    if b - 1 > pos {
                        lemma_name_lt(xv, before[pos as int], before[b - 1]);
                    }
                } else {
                    assert(after[a] == before[a - 1] && after[b] == before[b - 1]);
                }
            }
            assert forall|g: (Seq<char>, nat)|
                #[trigger] after.contains(g) <==> exists|k: int|
                    0 <= k < i + 1 && g == (#[trigger] ops@[k].sym@, ops@[k].arity as nat) by {
                if after.contains(g) {
                    let k = choose|k: int| 0 <= k < after.len() && after[k] == g;
                    if k < pos {
                        assert(before[k] == g);
                        assert(before.contains(g));
                    } else if k > pos {
                        assert(before[k - 1] == g);
                        assert(before.contains(g));
                    } else {
                        assert(g == (ops@[i as int].sym@, ops@[i as int].arity as nat));
                    }
                }
                if exists|k: int|
                    0 <= k < i + 1 && g == (#[trigger] ops@[k].sym@, ops@[k].arity as nat) {
                    let k = choose|k: int|
                        0 <= k < i + 1 && g == (#[trigger] ops@[k].sym@, ops@[k].arity as nat);
                    if k < i {
                        assert(before.contains(g));
                        let w = choose|w: int| 0 <= w < before.len() && before[w] == g;
                        if w < pos {
                            assert(after[w] == g);
                        } else {
                            assert(after[w + 1] == g);
                        }
                    } else {
                        assert(after[pos as int] == g);
                    }
                }
            }
        }
        i += 1;
    }
    r
}



/// Strictly increasing.
pub open spec fn strictly_inc(d: Seq<i64>) -> bool {
    forall|i: int, j: int| 0 <= i < j < d.len() ==> d[i] < d[j]
}

proof fn lemma_inc_unique(a: Seq<i64>, b: Seq<i64>)
    requires
        strictly_inc(a),
        strictly_inc(b),
        forall|x: i64| #[trigger] a.contains(x) <==> b.contains(x),
    ensures
        a == b,
    decreases a.len(),
{
    if a.len() == 0 {
        if b.len() > 0 {
            assert(b.contains(b[0]));
            assert(a.contains(b[0]) == b.contains(b[0]));
        }
        assert(a =~= b);
    } else {
        assert(a.contains(a[0]));
        assert(b.contains(a[0]));
        assert(b.len() > 0);
        assert(b.contains(b[0]));
        assert(a.contains(b[0]));
        let ka = choose|k: int| 0 <= k < b.len() && b[k] == a[0];
        let kb = choose|k: int| 0 <= k < a.len() && a[k] == b[0];
        if a[0] != b[0] {
            assert(ka > 0 && kb > 0);
            assert(b[0] < b[ka]);
            assert(a[0] < a[kb]);
        }
        assert(a[0] == b[0]);
        let a1 = a.drop_first();
        let b1 = b.drop_first();
        assert forall|x: i64| #[trigger] a1.contains(x) <==> b1.contains(x) by {
            if a1.contains(x) {
                let i = choose|i: int| 0 <= i < a1.len() && a1[i] == x;
                assert(a[i + 1] == x);
                assert(a.contains(x));
                let j = choose|j: int| 0 <= j < b.len() && b[j] == x;
                assert(j != 0);
                assert(b1[j - 1] == x);
            }
            if b1.contains(x) {
                let i = choose|i: int| 0 <= i < b1.len() && b1[i] == x;
                assert(b[i + 1] == x);
                assert(b.contains(x));
                assert(a.contains(x) == b.contains(x));
                let j = choose|j: int| 0 <= j < a.len() && a[j] == x;
                assert(b[0] < b[i + 1]);
                assert(j != 0);
                assert(a1[j - 1] == x);
            }
        }
        lemma_inc_unique(a1, b1);
        assert(a =~= seq![a[0]] + a1);
        assert(b =~= seq![b[0]] + b1);
    }
}

/// The generated elements in ascending order.
pub open spec fn domain(ops: Seq<Operation>, gens: Seq<i64>) -> Seq<i64> {
    choose|d: Seq<i64>| strictly_inc(d) && d.to_set() == generated(ops, gens)
}

/// The elements in ascending order, each once.
fn sort_distinct(v: &Vec<i64>) -> (r: Vec<i64>)
    ensures
        strictly_inc(r@),
        forall|x: i64| #[trigger] r@.contains(x) <==> v@.contains(x),
{
    let mut r: Vec<i64> = Vec::new();
    let mut i: usize = 0;
    while i < v.len()
        invariant
            i <= v.len(),
            strictly_inc(r@),
            forall|x: i64| #[trigger] r@.contains(x) <==> v@.take(i as int).contains(x),
        decreases v.len() - i,
    {
        let x = v[i];
        let ghost before = r@;
        let mut pos: usize = 0;
        while pos < r.len() && r[pos] < x
            invariant
                pos <= r.len(),
                r@ == before,
                forall|k: int| 0 <= k < pos ==> r@[k] < x,
            decreases r.len() - pos,
        {
            pos += 1;
        }
        if pos < r.len() && r[pos] == x {
        } else {
            r.insert(pos, x);
            proof {
                assert(r@ =~= before.insert(pos as int, x));
                assert forall|a: int, b: int| 0 <= a < b < r.len() implies r@[a] < r@[b] by {
                    if b < pos {
                        assert(r@[a] == before[a] && r@[b] == before[b]);
                    } else if b == pos {
                        assert(r@[a] == before[a]);
                    } else if a == pos {
                        assert(r@[b] == before[b - 1]);
                        assert(before[pos as int] >= x);
                        assert(before[pos as int] != x);
                    } else if a < pos {
                        assert(r@[a] == before[a] && r@[b] == before[b - 1]);
                        assert(before[pos as int] > x);
                    } else {
                        assert(r@[a] == before[a - 1] && r@[b] == before[b - 1]);
                    }
                }
            }
        }
        proof {
            let tk = v@.take(i + 1);
            assert(tk =~= v@.take(i as int).push(x));
            assert forall|y: i64| #[trigger] r@.contains(y) <==> tk.contains(y) by {
                if r@.contains(y) {
                    let k = choose|k: int| 0 <= k < r.len() && r@[k] == y;
                    if y != x {
                        if before.len() == r.len() {
                            assert(before.contains(y));
                        } else if k < pos {
                            assert(before[k] == y);
                            assert(before.contains(y));
                        } else {
                            assert(k != pos);
                            assert(before[k - 1] == y);
                            assert(before.contains(y));
                        }
                        let w = choose|w: int| 0 <= w < i && v@.take(i as int)[w] == y;
                        assert(tk[w] == y);
                    } else {
                        assert(tk[i as int] == y);
                    }
                }
                if tk.contains(y) {
                    let w = choose|w: int| 0 <= w < tk.len() && tk[w] == y;
                    if w < i {
                        assert(v@.take(i as int)[w] == y);
                        assert(before.contains(y));
                        let k = choose|k: int| 0 <= k < before.len() && before[k] == y;
                        if before.len() == r.len() {
                            assert(r@[k] == y);
                        } else if k < pos {
                            assert(r@[k] == y);
                        } else {
                            assert(r@[k + 1] == y);
                        }
                    } else {
                        assert(y == x);
                        if before.len() == r.len() {
                            assert(r@[pos as int] == x);
                        } else {
                            assert(r@[pos as int] == x);
                        }
                    }
                }
            }
        }
        i += 1;
    }
    proof {
        assert(v@.take(v.len() as int) =~= v@);
    }
    r
}

/// Position of the first occurrence of `v` in `l`, or -1.
pub open spec fn first_index(l: Seq<i64>, v: i64) -> int
    decreases l.len(),
{
    if l.len() == 0 {
        -1
    } else if first_index(l.drop_last(), v) >= 0 {
        first_index(l.drop_last(), v)
    } else if l.last() == v {
        l.len() - 1
    } else {
        -1
    }
}

proof fn lemma_first_index(l: Seq<i64>, v: i64)
    ensures
        first_index(l, v) < 0 <==> !l.contains(v),
        first_index(l, v) >= 0 ==> first_index(l, v) < l.len() && l[first_index(l, v)] == v && forall|j: int|
            0 <= j < first_index(l, v) ==> l[j] != v,
    decreases l.len(),
{
    if l.len() > 0 {
        let d = l.drop_last();
        lemma_first_index(d, v);
        if l.contains(v) {
            let w = choose|w: int| 0 <= w < l.len() && l[w] == v;
            if w < d.len() {
                assert(d[w] == v);
            }
        }
        if d.contains(v) {
            let w = choose|w: int| 0 <= w < d.len() && d[w] == v;
            assert(l[w] == v);
        }
        if first_index(d, v) >= 0 {
            let f = first_index(d, v);
            assert(l[f] == d[f]);
            assert forall|j: int| 0 <= j < f implies l[j] != v by {
                assert(l[j] == d[j]);
            }
        }
        if first_index(d, v) < 0 && l.last() == v {
            assert(l[l.len() - 1] == v);
            assert forall|j: int| 0 <= j < l.len() - 1 implies l[j] != v by {
                assert(l[j] == d[j]);
                if l[j] == v {
                    assert(d.contains(v));
                }
            }
        }
    }
}

/// The label of an element: its position in the label order, or `u32::MAX`.
pub open spec fn label_of(l: Seq<i64>, v: i64) -> u32 {
    if first_index(l, v) >= 0 {
        first_index(l, v) as u32
    } else {
        u32::MAX
    }
}

/// The label order: the distinct generators in order, then the other
/// generated elements in ascending order.
pub open spec fn label_order(gens: Seq<i64>, dom: Seq<i64>) -> Seq<i64> {
    crate::engines::tuple_model_hash::fresh(gens, Seq::empty()) + crate::engines::tuple_model_hash::fresh(dom, gens)
}

/// The label of `v` in `l`.
fn label_exec(l: &Vec<i64>, v: i64) -> (r: u32)
    ensures
        r == label_of(l@, v),
{
    proof {
        lemma_first_index(l@, v);
    }
    let mut i: usize = 0;
    while i < l.len()
        invariant
            i <= l.len(),
            forall|j: int| 0 <= j < i ==> l@[j] != v,
        decreases l.len() - i,
    {
        if l[i] == v {
            proof {
                lemma_first_index(l@, v);
                let f = first_index(l@, v);
                assert(l@.contains(v));
                if f < i {
                    assert(l@[f] == v);
                }
                if f > i {
                    assert(l@[i as int] != v);
                }
            }
            return i as u32;
        }
        i += 1;
    }
    proof {
        lemma_first_index(l@, v);
        if l@.contains(v) {
            let w = choose|w: int| 0 <= w < l.len() && l@[w] == v;
        }
    }
    u32::MAX
}

/// The values of `xs` not in `seen`, each once, in order.
fn fresh_exec(xs: &Vec<i64>, seen: &Vec<i64>) -> (r: Vec<i64>)
    ensures
        r@ == crate::engines::tuple_model_hash::fresh(xs@, seen@),
{
    let mut out: Vec<i64> = Vec::new();
    let mut i: usize = 0;
    proof {
        assert(xs@.take(0) =~= Seq::<i64>::empty());
    }
    while i < xs.len()
        invariant
            i <= xs.len(),
            out@ == crate::engines::tuple_model_hash::fresh(xs@.take(i as int), seen@),
        decreases xs.len() - i,
    {
        proof {
            assert(xs@.take(i + 1).drop_last() =~= xs@.take(i as int));
            assert(xs@.take(i + 1).last() == xs@[i as int]);
        }
        if !has_value(seen, xs[i]) && !has_value(&out, xs[i]) {
            out.push(xs[i]);
        }
        i += 1;
    }
    proof {
        assert(xs@.take(xs.len() as int) =~= xs@);
    }
    out
}

/// UTF-8 bytes of a character.
pub open spec fn utf8_char(c: char) -> Seq<u8> {
    let x = c as u32;
    if x < 0x80 {
        seq![x as u8]
    } else if x < 0x800 {
        seq![(0xC0u32 | (x >> 6u32)) as u8, (0x80u32 | (x & 0x3Fu32)) as u8]
    } else if x < 0x10000 {
        seq![(0xE0u32 | (x >> 12u32)) as u8, (0x80u32 | ((x >> 6u32) & 0x3Fu32)) as u8, (0x80u32 | (x & 0x3Fu32)) as u8]
    } else {
        seq![
            (0xF0u32 | (x >> 18u32)) as u8,
            (0x80u32 | ((x >> 12u32) & 0x3Fu32)) as u8,
            (0x80u32 | ((x >> 6u32) & 0x3Fu32)) as u8,
            (0x80u32 | (x & 0x3Fu32)) as u8,
        ]
    }
}

/// UTF-8 bytes of a string.
pub open spec fn utf8(s: Seq<char>) -> Seq<u8>
    decreases s.len(),
{
    if s.len() == 0 {
        Seq::empty()
    } else {
        utf8(s.drop_last()) + utf8_char(s.last())
    }
}

/// Appends the UTF-8 bytes of a string.
fn push_utf8(out: &mut Vec<u8>, s: &str)
    ensures
        final(out)@ == old(out)@ + utf8(s@),
{
    let cs = crate::strs::chars_of(s);
    let ghost start = out@;
    let mut i: usize = 0;
    proof {
        assert(s@.take(0) =~= Seq::<char>::empty());
        assert(out@ =~= start + utf8(s@.take(0)));
    }
    while i < cs.len()
        invariant
            i <= cs.len(),
            cs@ == s@,
            out@ == start + utf8(s@.take(i as int)),
        decreases cs.len() - i,
    {
        let c = cs[i];
        let x = c as u32;
        let ghost mid = out@;
        if x < 0x80 {
            out.push(x as u8);
        } else if x < 0x800 {
            out.push((0xC0u32 | (x >> 6u32)) as u8);
            out.push((0x80u32 | (x & 0x3Fu32)) as u8);
        } else if x < 0x10000 {
            out.push((0xE0u32 | (x >> 12u32)) as u8);
            out.push((0x80u32 | ((x >> 6u32) & 0x3Fu32)) as u8);
            out.push((0x80u32 | (x & 0x3Fu32)) as u8);
        } else {
            out.push((0xF0u32 | (x >> 18u32)) as u8);
            out.push((0x80u32 | ((x >> 12u32) & 0x3Fu32)) as u8);
            out.push((0x80u32 | ((x >> 6u32) & 0x3Fu32)) as u8);
            out.push((0x80u32 | (x & 0x3Fu32)) as u8);
        }
        proof {
            assert(out@ =~= mid + utf8_char(c));
            assert(s@.take(i + 1).drop_last() =~= s@.take(i as int));
            assert(s@.take(i + 1).last() == c);
        }
        i += 1;
    }
    proof {
        assert(s@.take(cs.len() as int) =~= s@);
    }
}

/// Appends the four little-endian bytes of `x`.
fn push_u32(out: &mut Vec<u8>, x: u32)
    ensures
        final(out)@ == old(out)@ + crate::engines::ktypes::u32_le(x),
{
    let ghost start = out@;
    let mut k: u32 = 0;
    while k < 4
        invariant
            k <= 4,
            out@ == start + crate::engines::ktypes::u32_le(x).take(k as int),
        decreases 4 - k,
    {
        out.push((x >> (8 * k)) as u8);
        k += 1;
        proof {
            assert(out@ =~= start + crate::engines::ktypes::u32_le(x).take(k as int));
        }
    }
    proof {
        assert(crate::engines::ktypes::u32_le(x).take(4) =~= crate::engines::ktypes::u32_le(x));
    }
}


/// Labels of the values of `op` on the tuples `ts`; an undefined value reads as `i64::MIN`.
pub open spec fn values_part(op: Operation, ts: Seq<Seq<i64>>, lab: Seq<i64>) -> Seq<u8>
    decreases ts.len(),
{
    if ts.len() == 0 {
        Seq::empty()
    } else {
        values_part(op, ts.drop_last(), lab) + crate::engines::ktypes::u32_le(
            label_of(
                lab,
                match op.spec_call(ts.last()) {
                    Some(v) => v,
                    None => i64::MIN,
                },
            ),
        )
    }
}

/// The table of one operation on the generated elements: its name, a zero
/// byte, its arity, and the labels of its values on all argument tuples.
pub open spec fn op_block(op: Operation, dom: Seq<i64>, lab: Seq<i64>) -> Seq<u8> {
    utf8(op.sym@) + seq![0u8, op.arity as u8] + values_part(op, all_tuples(dom, op.arity as nat), lab)
}

/// The tables of the operations, in name order.
pub open spec fn ops_part(ops: Seq<Operation>, ng: Seq<(Seq<char>, nat)>, dom: Seq<i64>, lab: Seq<i64>) -> Seq<u8>
    decreases ng.len(),
{
    if ng.len() == 0 {
        Seq::empty()
    } else {
        ops_part(ops, ng.drop_last(), dom, lab) + match crate::first_order::formulas::first_op(ops, ng.last().0) {
            Some(op) => op_block(op, dom, lab),
            None => Seq::empty(),
        }
    }
}

/// The labels of the generators, in order.
pub open spec fn gen_labels(lab: Seq<i64>, gens: Seq<i64>) -> Seq<u8>
    decreases gens.len(),
{
    if gens.len() == 0 {
        Seq::empty()
    } else {
        gen_labels(lab, gens.drop_last()) + crate::engines::ktypes::u32_le(label_of(lab, gens.last()))
    }
}

/// Canonical fingerprint of the subalgebra generated by `gens`, labelled by
/// its generators: the number of generators and of elements, the operation
/// tables over the elements in label terms, and the generators' labels.
pub open spec fn fingerprint(model: Model, gens: Seq<i64>) -> Seq<u8> {
    let ops = model.operations@;
    let dom = domain(ops, gens);
    let lab = label_order(gens, dom);
    crate::engines::ktypes::u32_le(gens.len() as u32) + crate::engines::ktypes::u32_le(dom.len() as u32) + ops_part(
        ops,
        name_order(ops),
        dom,
        lab,
    ) + gen_labels(lab, gens)
}

/// Computes the fingerprint of the subalgebra generated by `gens`.
pub fn labeled_subalgebra_fingerprint(model: &Model, gens: &[i64]) -> (r: Vec<u8>)
    requires
        model.wf(),
    ensures
        r@ == fingerprint(*model, gens@),
{
    let ghost ops = model.operations@;
    let elems = generated_elems(model, gens);
    let dom = sort_distinct(&elems);
    proof {
        assert(dom@.to_set() =~= generated(ops, gens@)) by {
            assert forall|x: i64| dom@.to_set().contains(x) <==> generated(ops, gens@).contains(x) by {
                assert(dom@.contains(x) == elems@.contains(x));
                assert(elems@.to_set().contains(x) == elems@.contains(x));
            }
        }
        let d = domain(ops, gens@);
        assert(strictly_inc(d) && d.to_set() == generated(ops, gens@));
        assert forall|x: i64| #[trigger] dom@.contains(x) <==> d.contains(x) by {
            assert(dom@.to_set().contains(x) == dom@.contains(x));
            assert(d.to_set().contains(x) == d.contains(x));
        }
        lemma_inc_unique(dom@, d);
    }
    let gv = crate::util::copy_tuple(gens);
    let none: Vec<i64> = Vec::new();
    let mut lab = fresh_exec(&gv, &none);
    let rest = fresh_exec(&dom, &gv);
    let mut q: usize = 0;
    let ghost lab0 = lab@;
    while q < rest.len()
        invariant
            q <= rest.len(),
            lab@ == lab0 + rest@.take(q as int),
        decreases rest.len() - q,
    {
        lab.push(rest[q]);
        q += 1;
        proof {
            assert(lab@ =~= lab0 + rest@.take(q as int));
        }
    }
    proof {
        assert(rest@.take(rest.len() as int) =~= rest@);
        assert(none@ =~= Seq::<i64>::empty());
        assert(lab@ == label_order(gens@, dom@));
    }
    let mut out: Vec<u8> = Vec::new();
    push_u32(&mut out, gens.len() as u32);
    push_u32(&mut out, dom.len() as u32);
    let ng = name_groups(&model.operations);
    let ghost gv2 = groups_view(ng@);
    proof {
        assert(is_name_groups(name_order(ops), ops));
        assert forall|g: (Seq<char>, nat)| #[trigger] gv2.contains(g) <==> name_order(ops).contains(g) by {
            assert(gv2.contains(g) == name_order(ops).contains(g));
        }
        lemma_names_unique(gv2, name_order(ops));
    }
    let ghost head = out@;
    let mut g: usize = 0;
    proof {
        assert(gv2.take(0) =~= Seq::<(Seq<char>, nat)>::empty());
        assert(out@ =~= head + ops_part(ops, gv2.take(0), dom@, lab@));
    }
    while g < ng.len()
        invariant
            g <= ng.len(),
            model.wf(),
            ops == model.operations@,
            gv2 == groups_view(ng@),
            out@ == head + ops_part(ops, gv2.take(g as int), dom@, lab@),
        decreases ng.len() - g,
    {
        proof {
            assert(gv2.take(g + 1).drop_last() =~= gv2.take(g as int));
            assert(gv2.take(g + 1).last() == gv2[g as int]);
            assert(gv2[g as int] == (ng@[g as int].0@, ng@[g as int].1 as nat));
            crate::first_order::formulas::lemma_first_op(ops, ng@[g as int].0@);
        }
        match crate::first_order::relops::find_operation(&model.operations, &ng[g].0) {
            Some(idx) => {
                let op = &model.operations[idx];
                proof {
                    assert(crate::first_order::formulas::first_op(ops, gv2[g as int].0) == Some(ops[idx as int]));
                    assert(op.wf());
                }
                let ghost mid = out@;
                push_utf8(&mut out, op.sym.as_str());
                out.push(0u8);
                out.push(op.arity as u8);
                let ts = tuples_over(&dom, op.arity);
                let ghost tv = ts.deep_view();
                let ghost pre = out@;
                let mut t: usize = 0;
                proof {
                    assert(tv.take(0) =~= Seq::<Seq<i64>>::empty());
                    assert(out@ =~= pre + values_part(*op, tv.take(0), lab@));
                }
                while t < ts.len()
                    invariant
                        t <= ts.len(),
                        op.wf(),
                        tv == ts.deep_view(),
                        out@ == pre + values_part(*op, tv.take(t as int), lab@),
                    decreases ts.len() - t,
                {
                    proof {
                        assert(tv[t as int] == ts@[t as int]@);
                        assert(tv.take(t + 1).drop_last() =~= tv.take(t as int));
                        assert(tv.take(t + 1).last() == tv[t as int]);
                    }
                    let v = match op.call(ts[t].as_slice()) {
                        Some(v) => v,
                        None => i64::MIN,
                    };
                    let l = label_exec(&lab, v);
                    push_u32(&mut out, l);
                    t += 1;
                }
                proof {
                    assert(tv.take(ts.len() as int) =~= tv);
                    assert(out@ =~= mid + op_block(*op, dom@, lab@));
                }
            },
            None => {
                proof {
                    assert(crate::first_order::formulas::first_op(ops, gv2[g as int].0) is None);
                }
            },
        }
        g += 1;
    }
    proof {
        assert(gv2.take(ng.len() as int) =~= gv2);
    }
    let ghost body = out@;
    let mut k: usize = 0;
    proof {
        assert(gens@.take(0) =~= Seq::<i64>::empty());
        assert(out@ =~= body + gen_labels(lab@, gens@.take(0)));
    }
    while k < gens.len()
        invariant
            k <= gens.len(),
            out@ == body + gen_labels(lab@, gens@.take(k as int)),
        decreases gens.len() - k,
    {
        proof {
            assert(gens@.take(k + 1).drop_last() =~= gens@.take(k as int));
            assert(gens@.take(k + 1).last() == gens@[k as int]);
        }
        let l = label_exec(&lab, gens[k]);
        push_u32(&mut out, l);
        k += 1;
    }
    proof {
        assert(gens@.take(gens.len() as int) =~= gens@);
    }
    out
}

/// The target holds one tuple and misses another of the same fingerprint.
pub open spec fn breaks_approx(model: Model, target: crate::first_order::relops::Relation) -> bool {
    let ts = all_tuples(model.universe@, target.arity as nat);
    target.arity > 0 && exists|i: int, j: int|
        0 <= i < ts.len() && 0 <= j < ts.len() && fingerprint(model, #[trigger] ts[i]) == fingerprint(model, #[trigger] ts[j])
            && target.has(ts[i]) && !target.has(ts[j])
}

/// The target cannot be quantifier-free definable: it is not a union of
/// fingerprint classes of the tuples over the universe.
#[verifier::spinoff_prover]
pub fn target_breaks_approx_classes(model: &Model, target: &crate::first_order::relops::Relation) -> (r: bool)
    requires
        model.wf(),
    ensures
        r == breaks_approx(*model, *target),
{
    if target.arity == 0 {
        return false;
    }
    let ts = tuples_over(&model.universe, target.arity);
    let ghost tv = ts.deep_view();
    let mut fps: Vec<Vec<u8>> = Vec::new();
    let mut ins: Vec<bool> = Vec::new();
    let mut t: usize = 0;
    while t < ts.len()
        invariant
            t <= ts.len(),
            model.wf(),
            target.arity > 0,
            tv == ts.deep_view(),
            tv == all_tuples(model.universe@, target.arity as nat),
            fps.len() == t,
            ins.len() == t,
            forall|a: int| 0 <= a < t ==> (#[trigger] fps@[a])@ == fingerprint(*model, tv[a]),
            forall|a: int| 0 <= a < t ==> #[trigger] ins@[a] == target.has(tv[a]),
            forall|a: int, b: int|
                0 <= a < t && 0 <= b < t && fingerprint(*model, #[trigger] tv[a]) == fingerprint(*model, #[trigger] tv[b])
                    ==> target.has(tv[a]) == target.has(tv[b]),
        decreases ts.len() - t,
    {
        proof {
            assert(tv[t as int] == ts@[t as int]@);
        }
        let fp = labeled_subalgebra_fingerprint(model, ts[t].as_slice());
        let in_t = target.contains(ts[t].as_slice());
        let mut s: usize = 0;
        while s < t
            invariant
                s <= t,
                t < ts.len(),
                tv == ts.deep_view(),
                tv == all_tuples(model.universe@, target.arity as nat),
                fps.len() == t,
                ins.len() == t,
                fp@ == fingerprint(*model, tv[t as int]),
                in_t == target.has(tv[t as int]),
                forall|a: int| 0 <= a < t ==> (#[trigger] fps@[a])@ == fingerprint(*model, tv[a]),
                forall|a: int| 0 <= a < t ==> #[trigger] ins@[a] == target.has(tv[a]),
                forall|a: int| 0 <= a < s && fingerprint(*model, #[trigger] tv[a]) == fingerprint(*model, tv[t as int])
                    ==> target.has(tv[a]) == in_t,
            decreases t - s,
        {
            if crate::engines::partition::bytes_eq(&fps[s], &fp) && ins[s] != in_t {
                proof {
                    let a = s as int;
                    let b = t as int;
                    let ts_s = all_tuples(model.universe@, target.arity as nat);
                    assert(fps@[a]@ == fp@);
                    assert(fingerprint(*model, ts_s[a]) == fingerprint(*model, ts_s[b]));
                    if target.has(tv[a]) {
                        assert(target.has(ts_s[a]) && !target.has(ts_s[b]));
                    } else {
                        assert(target.has(ts_s[b]) && !target.has(ts_s[a]));
                        assert(fingerprint(*model, ts_s[b]) == fingerprint(*model, ts_s[a]));
                    }
                }
                return true;
            }
            s += 1;
        }
        let ghost fpv = fp@;
        fps.push(fp);
        ins.push(in_t);
        t += 1;
    }
    proof {
        let ts_s = all_tuples(model.universe@, target.arity as nat);
        if breaks_approx(*model, *target) {
            let (i, j) = choose|i: int, j: int|
                0 <= i < ts_s.len() && 0 <= j < ts_s.len() && fingerprint(*model, #[trigger] ts_s[i]) == fingerprint(
                    *model,
                    #[trigger] ts_s[j],
                ) && target.has(ts_s[i]) && !target.has(ts_s[j]);
            assert(fingerprint(*model, tv[i]) == fingerprint(*model, tv[j]));
        }
    }
    false
}

/// `x` put into its place in the strictly increasing `s`.
spec fn ins_inc(s: Seq<i64>, x: i64) -> Seq<i64>
    decreases s.len(),
{
    if s.len() == 0 {
        seq![x]
    } else if x < s[0] {
        seq![x] + s
    } else if x == s[0] {
        s
    } else {
        seq![s[0]] + ins_inc(s.drop_first(), x)
    }
}

/// The values of `t` in ascending order, each once.
spec fn inc_of(t: Seq<i64>) -> Seq<i64>
    decreases t.len(),
{
    if t.len() == 0 {
        Seq::empty()
    } else {
        ins_inc(inc_of(t.drop_last()), t.last())
    }
}

proof fn lemma_ins_inc(s: Seq<i64>, x: i64)
    requires
        strictly_inc(s),
    ensures
        strictly_inc(ins_inc(s, x)),
        forall|y: i64| #[trigger] ins_inc(s, x).contains(y) <==> (s.contains(y) || y == x),
    decreases s.len(),
{
    let r = ins_inc(s, x);
    if s.len() == 0 {
        assert forall|y: i64| #[trigger] r.contains(y) <==> (s.contains(y) || y == x) by {
            if r.contains(y) {
                let k = choose|k: int| 0 <= k < r.len() && r[k] == y;
            }
            if y == x {
                assert(r[0] == x);
            }
        }
    } else if x < s[0] {
        assert forall|y: i64| #[trigger] r.contains(y) <==> (s.contains(y) || y == x) by {
            if r.contains(y) {
                let k = choose|k: int| 0 <= k < r.len() && r[k] == y;
                if k > 0 {
                    assert(s[k - 1] == y);
                }
            }
            if s.contains(y) {
                let k = choose|k: int| 0 <= k < s.len() && s[k] == y;
                assert(r[k + 1] == y);
            }
            if y == x {
                assert(r[0] == x);
            }
        }
        assert forall|i: int, j: int| 0 <= i < j < r.len() implies r[i] < r[j] by {
            if i > 0 {
                assert(r[i] == s[i - 1] && r[j] == s[j - 1]);
            } else {
                assert(r[j] == s[j - 1]);
                assert(s[0] <= s[j - 1]);
            }
        }
    } else if x == s[0] {
        assert(s.contains(s[0]));
    } else {
        let rest = s.drop_first();
        assert(strictly_inc(rest));
        lemma_ins_inc(rest, x);
        let ri = ins_inc(rest, x);
        assert(r == seq![s[0]] + ri);
        assert forall|y: i64| #[trigger] r.contains(y) <==> (s.contains(y) || y == x) by {
            if r.contains(y) {
                let k = choose|k: int| 0 <= k < r.len() && r[k] == y;
                if k > 0 {
                    assert(ri[k - 1] == y);
                    assert(ri.contains(y));
                    if rest.contains(y) {
                        let q = choose|q: int| 0 <= q < rest.len() && rest[q] == y;
                        assert(s[q + 1] == y);
                    }
                } else {
                    assert(s[0] == y);
                }
            }
            if s.contains(y) {
                let k = choose|k: int| 0 <= k < s.len() && s[k] == y;
                if k > 0 {
                    assert(rest[k - 1] == y);
                    assert(ri.contains(y));
                    let q = choose|q: int| 0 <= q < ri.len() && ri[q] == y;
                    assert(r[q + 1] == y);
                } else {
                    assert(r[0] == y);
                }
            }
            if y == x {
                assert(ri.contains(x));
                let q = choose|q: int| 0 <= q < ri.len() && ri[q] == x;
                assert(r[q + 1] == x);
            }
        }
        assert forall|i: int, j: int| 0 <= i < j < r.len() implies r[i] < r[j] by {
            if i > 0 {
                assert(r[i] == ri[i - 1] && r[j] == ri[j - 1]);
            } else {
                assert(r[j] == ri[j - 1]);
                assert(ri.contains(ri[j - 1]));
                let y = ri[j - 1];
                if rest.contains(y) {
                    let q = choose|q: int| 0 <= q < rest.len() && rest[q] == y;
                    assert(s[q + 1] == y);
                }
            }
        }
    }
}

proof fn lemma_inc_of(t: Seq<i64>)
    ensures
        strictly_inc(inc_of(t)),
        forall|y: i64| #[trigger] inc_of(t).contains(y) <==> t.contains(y),
    decreases t.len(),
{
    if t.len() > 0 {
        let d = t.drop_last();
        lemma_inc_of(d);
        lemma_ins_inc(inc_of(d), t.last());
        assert forall|y: i64| #[trigger] inc_of(t).contains(y) <==> t.contains(y) by {
            if d.contains(y) {
                let k = choose|k: int| 0 <= k < d.len() && d[k] == y;
                assert(t[k] == y);
            }
            if t.contains(y) {
                let k = choose|k: int| 0 <= k < t.len() && t[k] == y;
                if k < d.len() {
                    assert(d[k] == y);
                }
            }
            assert(t[t.len() - 1] == t.last());
        }
    }
}

/// Without operations a tuple generates just its own values.
proof fn lemma_generated_without_ops(ops: Seq<Operation>, gens: Seq<i64>)
    requires
        ops.len() == 0,
    ensures
        generated(ops, gens) == gens.to_set(),
{
    assert forall|v: i64| #[trigger] generated(ops, gens).contains(v) <==> gens.to_set().contains(v) by {
        if gens.to_set().contains(v) {
            let k = choose|k: int| 0 <= k < gens.len() && gens[k] == v;
            assert forall|s: Set<i64>| ops_closed(ops, s) && holds_all(s, gens) implies #[trigger] s.contains(v) by {
                assert(s.contains(gens[k]));
            }
        }
        if generated(ops, gens).contains(v) {
            let s = gens.to_set();
            assert(ops_closed(ops, s));
            assert forall|x: int| 0 <= x < gens.len() implies s.contains(gens[x]) by {}
            assert(holds_all(s, gens));
            assert(s.contains(v));
        }
    }
    assert(generated(ops, gens) =~= gens.to_set());
}

/// Without operations the domain holds exactly the tuple's values.
proof fn lemma_domain_without_ops(ops: Seq<Operation>, gens: Seq<i64>)
    requires
        ops.len() == 0,
    ensures
        strictly_inc(domain(ops, gens)),
        domain(ops, gens).to_set() == gens.to_set(),
{
    lemma_generated_without_ops(ops, gens);
    lemma_inc_of(gens);
    let w = inc_of(gens);
    assert(w.to_set() =~= gens.to_set()) by {
        assert forall|y: i64| w.to_set().contains(y) <==> gens.to_set().contains(y) by {
            assert(w.contains(y) <==> gens.contains(y));
        }
    }
    assert(strictly_inc(w) && w.to_set() == generated(ops, gens));
}

/// Values all seen leave nothing fresh.
proof fn lemma_fresh_all_seen(xs: Seq<i64>, seen: Seq<i64>)
    requires
        forall|k: int| 0 <= k < xs.len() ==> seen.contains(#[trigger] xs[k]),
    ensures
        fresh(xs, seen) == Seq::<i64>::empty(),
    decreases xs.len(),
{
    if xs.len() > 0 {
        let d = xs.drop_last();
        assert forall|k: int| 0 <= k < d.len() implies seen.contains(#[trigger] d[k]) by {
            assert(d[k] == xs[k]);
        }
        lemma_fresh_all_seen(d, seen);
        assert(seen.contains(xs[xs.len() - 1]));
    }
}

/// The first index after a value is added at the end.
proof fn lemma_first_index_push(l: Seq<i64>, v: i64, x: i64)
    ensures
        first_index(l.push(v), x) == if first_index(l, x) >= 0 {
            first_index(l, x)
        } else if v == x {
            l.len() as int
        } else {
            -1
        },
{
    assert(l.push(v).drop_last() =~= l);
}

/// Tuples with the same equality pattern number their distinct values alike.
proof fn lemma_fresh_same_pattern(t1: Seq<i64>, t2: Seq<i64>, k: int)
    requires
        t1.len() == t2.len(),
        0 <= k <= t1.len(),
        forall|i: int, j: int| 0 <= i < t1.len() && 0 <= j < t1.len() ==> ((t1[i] == t1[j]) == (t2[i] == t2[j])),
    ensures
        fresh(t1.take(k), Seq::empty()).len() == fresh(t2.take(k), Seq::empty()).len(),
        forall|i: int|
            0 <= i < k ==> first_index(fresh(t1.take(k), Seq::empty()), #[trigger] t1[i]) == first_index(
                fresh(t2.take(k), Seq::empty()),
                t2[i],
            ) && first_index(fresh(t1.take(k), Seq::empty()), t1[i]) >= 0,
    decreases k,
{
    let e = Seq::<i64>::empty();
    if k > 0 {
        lemma_fresh_same_pattern(t1, t2, k - 1);
        let a1 = t1.take(k);
        let a2 = t2.take(k);
        assert(a1.drop_last() =~= t1.take(k - 1));
        assert(a2.drop_last() =~= t2.take(k - 1));
        let p1 = fresh(t1.take(k - 1), e);
        let p2 = fresh(t2.take(k - 1), e);
        lemma_first_index(p1, t1[k - 1]);
        lemma_first_index(p2, t2[k - 1]);
        let seen1 = p1.contains(t1[k - 1]);
        let seen2 = p2.contains(t2[k - 1]);
        if seen1 {
            lemma_fresh(t1.take(k - 1), e);
            let m = choose|m: int| 0 <= m < p1.len() && p1[m] == t1[k - 1];
            assert(t1.take(k - 1).contains(p1[m]));
            let j = choose|j: int| 0 <= j < k - 1 && #[trigger] t1.take(k - 1)[j] == t1[k - 1];
            assert(t1[j] == t1[k - 1]);
            assert(t2[j] == t2[k - 1]);
            assert(first_index(p2, t2[j]) >= 0);
            lemma_first_index(p2, t2[j]);
        }
        if seen2 {
            lemma_fresh(t2.take(k - 1), e);
            let m = choose|m: int| 0 <= m < p2.len() && p2[m] == t2[k - 1];
            assert(t2.take(k - 1).contains(p2[m]));
            let j = choose|j: int| 0 <= j < k - 1 && #[trigger] t2.take(k - 1)[j] == t2[k - 1];
            assert(t2[j] == t2[k - 1]);
            assert(t1[j] == t1[k - 1]);
            assert(first_index(p1, t1[j]) >= 0);
        }
        assert(seen1 == seen2);
        assert(fresh(a1, e) == if seen1 { p1 } else { p1.push(t1[k - 1]) });
        assert(fresh(a2, e) == if seen2 { p2 } else { p2.push(t2[k - 1]) });
        assert forall|i: int| 0 <= i < k implies first_index(fresh(a1, e), #[trigger] t1[i]) == first_index(fresh(a2, e), t2[i])
            && first_index(fresh(a1, e), t1[i]) >= 0 by {
            if !seen1 {
                lemma_first_index_push(p1, t1[k - 1], t1[i]);
                lemma_first_index_push(p2, t2[k - 1], t2[i]);
                if i < k - 1 {
                } else {
                    lemma_first_index(p1, t1[i]);
                    lemma_first_index(p2, t2[i]);
                }
            } else if i == k - 1 {
                lemma_fresh(t1.take(k - 1), e);
                let m = choose|m: int| 0 <= m < p1.len() && p1[m] == t1[k - 1];
                assert(t1.take(k - 1).contains(p1[m]));
                let j = choose|j: int| 0 <= j < k - 1 && #[trigger] t1.take(k - 1)[j] == t1[k - 1];
                assert(t1[j] == t1[k - 1]);
                assert(t2[j] == t2[k - 1]);
            }
        }
    } else {
        assert(t1.take(0) =~= e);
        assert(t2.take(0) =~= e);
    }
}

/// Without operations the tables are empty.
proof fn lemma_ops_part_empty(ops: Seq<Operation>, ng: Seq<(Seq<char>, nat)>, dom: Seq<i64>, lab: Seq<i64>)
    requires
        ops.len() == 0,
    ensures
        ops_part(ops, ng, dom, lab) == Seq::<u8>::empty(),
    decreases ng.len(),
{
    if ng.len() > 0 {
        lemma_ops_part_empty(ops, ng.drop_last(), dom, lab);
    }
}

/// Labels that agree position by position give the same label bytes.
proof fn lemma_gen_labels_agree(l1: Seq<i64>, l2: Seq<i64>, g1: Seq<i64>, g2: Seq<i64>)
    requires
        g1.len() == g2.len(),
        forall|i: int| 0 <= i < g1.len() ==> label_of(l1, #[trigger] g1[i]) == label_of(l2, g2[i]),
    ensures
        gen_labels(l1, g1) == gen_labels(l2, g2),
    decreases g1.len(),
{
    if g1.len() > 0 {
        let d1 = g1.drop_last();
        let d2 = g2.drop_last();
        assert forall|i: int| 0 <= i < d1.len() implies label_of(l1, #[trigger] d1[i]) == label_of(l2, d2[i]) by {
            assert(d1[i] == g1[i] && d2[i] == g2[i]);
        }
        lemma_gen_labels_agree(l1, l2, d1, d2);
        assert(label_of(l1, g1[g1.len() - 1]) == label_of(l2, g2[g1.len() - 1]));
    }
}

/// Law: without operations the fingerprint of a tuple sees only its equality
/// pattern: tuples of one length that agree on which coordinates are equal get the
/// same fingerprint.
pub proof fn law_fingerprint_sees_only_pattern(model: Model, t1: Seq<i64>, t2: Seq<i64>)
    requires
        model.operations.len() == 0,
        t1.len() == t2.len(),
        forall|i: int, j: int| 0 <= i < t1.len() && 0 <= j < t1.len() ==> ((t1[i] == t1[j]) == (t2[i] == t2[j])),
    ensures
        fingerprint(model, t1) == fingerprint(model, t2),
{
    let ops = model.operations@;
    let e = Seq::<i64>::empty();
    let d1 = domain(ops, t1);
    let d2 = domain(ops, t2);
    lemma_domain_without_ops(ops, t1);
    lemma_domain_without_ops(ops, t2);
    lemma_fresh_same_pattern(t1, t2, t1.len() as int);
    assert(t1.take(t1.len() as int) =~= t1);
    assert(t2.take(t2.len() as int) =~= t2);
    let f1 = fresh(t1, e);
    let f2 = fresh(t2, e);
    // the domain adds nothing to the labels
    assert forall|k: int| 0 <= k < d1.len() implies t1.contains(#[trigger] d1[k]) by {
        assert(d1.to_set().contains(d1[k]));
    }
    assert forall|k: int| 0 <= k < d2.len() implies t2.contains(#[trigger] d2[k]) by {
        assert(d2.to_set().contains(d2[k]));
    }
    lemma_fresh_all_seen(d1, t1);
    lemma_fresh_all_seen(d2, t2);
    let l1 = label_order(t1, d1);
    let l2 = label_order(t2, d2);
    assert(l1 =~= f1);
    assert(l2 =~= f2);
    // the domains are as long as the numberings
    lemma_fresh(t1, e);
    lemma_fresh(t2, e);
    assert(d1.no_duplicates()) by {
        assert forall|i: int, j: int| 0 <= i < d1.len() && 0 <= j < d1.len() && i != j implies d1[i] != d1[j] by {
            if i < j {
                assert(d1[i] < d1[j]);
            } else {
                assert(d1[j] < d1[i]);
            }
        }
    }
    assert(d2.no_duplicates()) by {
        assert forall|i: int, j: int| 0 <= i < d2.len() && 0 <= j < d2.len() && i != j implies d2[i] != d2[j] by {
            if i < j {
                assert(d2[i] < d2[j]);
            } else {
                assert(d2[j] < d2[i]);
            }
        }
    }
    assert(f1.to_set() =~= t1.to_set()) by {
        assert forall|y: i64| f1.to_set().contains(y) <==> t1.to_set().contains(y) by {
            if t1.contains(y) {
                let k = choose|k: int| 0 <= k < t1.len() && t1[k] == y;
                assert(f1.contains(t1[k]));
            }
            if f1.contains(y) {
                let k = choose|k: int| 0 <= k < f1.len() && f1[k] == y;
                assert(t1.contains(f1[k]));
            }
        }
    }
    assert(f2.to_set() =~= t2.to_set()) by {
        assert forall|y: i64| f2.to_set().contains(y) <==> t2.to_set().contains(y) by {
            if t2.contains(y) {
                let k = choose|k: int| 0 <= k < t2.len() && t2[k] == y;
                assert(f2.contains(t2[k]));
            }
            if f2.contains(y) {
                let k = choose|k: int| 0 <= k < f2.len() && f2[k] == y;
                assert(t2.contains(f2[k]));
            }
        }
    }
    assert(f1.no_duplicates());
    assert(f2.no_duplicates());
    d1.unique_seq_to_set();
    d2.unique_seq_to_set();
    f1.unique_seq_to_set();
    f2.unique_seq_to_set();
    assert(d1.len() == d2.len());
    // the labels of the generators agree
    assert forall|i: int| 0 <= i < t1.len() implies label_of(l1, #[trigger] t1[i]) == label_of(l2, t2[i]) by {
        assert(first_index(f1, t1[i]) == first_index(f2, t2[i]));
    }
    lemma_gen_labels_agree(l1, l2, t1, t2);
    lemma_ops_part_empty(ops, name_order(ops), d1, l1);
    lemma_ops_part_empty(ops, name_order(ops), d2, l2);
}


proof fn lemma_u32_le_injective(x: u32, y: u32)
    requires
        crate::engines::ktypes::u32_le(x) == crate::engines::ktypes::u32_le(y),
    ensures
        x == y,
{
    let a = crate::engines::ktypes::u32_le(x);
    let b = crate::engines::ktypes::u32_le(y);
    assert(a[0] == b[0] && a[1] == b[1] && a[2] == b[2] && a[3] == b[3]);
    assert(a[0] == (x >> 0u32) as u8 && a[1] == (x >> 8u32) as u8 && a[2] == (x >> 16u32) as u8 && a[3] == (x
        >> 24u32) as u8);
    assert(b[0] == (y >> 0u32) as u8 && b[1] == (y >> 8u32) as u8 && b[2] == (y >> 16u32) as u8 && b[3] == (y
        >> 24u32) as u8);
    assert(((x >> 0u32) as u8 == (y >> 0u32) as u8 && (x >> 8u32) as u8 == (y >> 8u32) as u8 && (x >> 16u32) as u8
        == (y >> 16u32) as u8 && (x >> 24u32) as u8 == (y >> 24u32) as u8) ==> x == y) by (bit_vector);
}

proof fn lemma_gen_labels_len(l: Seq<i64>, g: Seq<i64>)
    ensures
        gen_labels(l, g).len() == 4 * g.len(),
    decreases g.len(),
{
    if g.len() > 0 {
        lemma_gen_labels_len(l, g.drop_last());
    }
}

/// Equal label bytes of equally long tuples come from equal labels.
proof fn lemma_gen_labels_split(l1: Seq<i64>, l2: Seq<i64>, g1: Seq<i64>, g2: Seq<i64>)
    requires
        g1.len() == g2.len(),
        gen_labels(l1, g1) == gen_labels(l2, g2),
    ensures
        forall|i: int| 0 <= i < g1.len() ==> label_of(l1, #[trigger] g1[i]) == label_of(l2, g2[i]),
    decreases g1.len(),
{
    if g1.len() > 0 {
        let d1 = g1.drop_last();
        let d2 = g2.drop_last();
        let a1 = gen_labels(l1, d1);
        let a2 = gen_labels(l2, d2);
        let b1 = crate::engines::ktypes::u32_le(label_of(l1, g1.last()));
        let b2 = crate::engines::ktypes::u32_le(label_of(l2, g2.last()));
        lemma_gen_labels_len(l1, d1);
        lemma_gen_labels_len(l2, d2);
        assert(gen_labels(l1, g1) == a1 + b1);
        assert(gen_labels(l2, g2) == a2 + b2);
        assert((a1 + b1).take(a1.len() as int) =~= a1);
        assert((a2 + b2).take(a2.len() as int) =~= a2);
        assert((a1 + b1).skip(a1.len() as int) =~= b1);
        assert((a2 + b2).skip(a2.len() as int) =~= b2);
        lemma_gen_labels_split(l1, l2, d1, d2);
        lemma_u32_le_injective(label_of(l1, g1.last()), label_of(l2, g2.last()));
        assert forall|i: int| 0 <= i < g1.len() implies label_of(l1, #[trigger] g1[i]) == label_of(l2, g2[i]) by {
            if i < g1.len() - 1 {
                assert(d1[i] == g1[i] && d2[i] == g2[i]);
            }
        }
    }
}

/// The label of a value of the tuple is the index of its first appearance among the
/// tuple's distinct values.
proof fn lemma_label_is_index(t: Seq<i64>, i: int)
    requires
        0 <= i < t.len(),
        t.len() < 0x1_0000_0000,
    ensures
        label_of(fresh(t, Seq::empty()), t[i]) == first_index(fresh(t, Seq::empty()), t[i]),
        0 <= first_index(fresh(t, Seq::empty()), t[i]) < fresh(t, Seq::empty()).len(),
        fresh(t, Seq::empty())[first_index(fresh(t, Seq::empty()), t[i])] == t[i],
{
    let f = fresh(t, Seq::empty());
    lemma_fresh(t, Seq::empty());
    lemma_first_index(f, t[i]);
    lemma_fresh_len(t, Seq::empty());
}

proof fn lemma_fresh_len(xs: Seq<i64>, seen: Seq<i64>)
    ensures
        fresh(xs, seen).len() <= xs.len(),
    decreases xs.len(),
{
    if xs.len() > 0 {
        lemma_fresh_len(xs.drop_last(), seen);
    }
}

/// Law: without operations the fingerprint of a tuple is exactly its equality
/// pattern: two tuples (shorter than 2^32) have the same fingerprint if and only if
/// they have one length and agree on which coordinates are equal.
pub proof fn law_fingerprint_is_pattern(model: Model, t1: Seq<i64>, t2: Seq<i64>)
    requires
        model.operations.len() == 0,
        t1.len() < 0x1_0000_0000,
        t2.len() < 0x1_0000_0000,
    ensures
        fingerprint(model, t1) == fingerprint(model, t2) <==> (t1.len() == t2.len() && forall|i: int, j: int|
            0 <= i < t1.len() && 0 <= j < t1.len() ==> ((t1[i] == t1[j]) == (t2[i] == t2[j]))),
{
    if t1.len() == t2.len() && forall|i: int, j: int|
        0 <= i < t1.len() && 0 <= j < t1.len() ==> ((t1[i] == t1[j]) == (t2[i] == t2[j])) {
        law_fingerprint_sees_only_pattern(model, t1, t2);
    }
    if fingerprint(model, t1) == fingerprint(model, t2) {
        let ops = model.operations@;
        let e = Seq::<i64>::empty();
        let d1 = domain(ops, t1);
        let d2 = domain(ops, t2);
        lemma_domain_without_ops(ops, t1);
        lemma_domain_without_ops(ops, t2);
        assert forall|k: int| 0 <= k < d1.len() implies t1.contains(#[trigger] d1[k]) by {
            assert(d1.to_set().contains(d1[k]));
        }
        assert forall|k: int| 0 <= k < d2.len() implies t2.contains(#[trigger] d2[k]) by {
            assert(d2.to_set().contains(d2[k]));
        }
        lemma_fresh_all_seen(d1, t1);
        lemma_fresh_all_seen(d2, t2);
        let l1 = label_order(t1, d1);
        let l2 = label_order(t2, d2);
        assert(l1 =~= fresh(t1, e));
        assert(l2 =~= fresh(t2, e));
        lemma_ops_part_empty(ops, name_order(ops), d1, l1);
        lemma_ops_part_empty(ops, name_order(ops), d2, l2);
        let h1 = crate::engines::ktypes::u32_le(t1.len() as u32);
        let h2 = crate::engines::ktypes::u32_le(t2.len() as u32);
        let m1 = crate::engines::ktypes::u32_le(d1.len() as u32);
        let m2 = crate::engines::ktypes::u32_le(d2.len() as u32);
        let g1 = gen_labels(l1, t1);
        let g2 = gen_labels(l2, t2);
        assert(fingerprint(model, t1) =~= h1 + m1 + g1);
        assert(fingerprint(model, t2) =~= h2 + m2 + g2);
        assert((h1 + m1 + g1).take(4) =~= h1);
        assert((h2 + m2 + g2).take(4) =~= h2);
        assert((h1 + m1 + g1).skip(8) =~= g1);
        assert((h2 + m2 + g2).skip(8) =~= g2);
        lemma_u32_le_injective(t1.len() as u32, t2.len() as u32);
        assert(t1.len() == t2.len());
        lemma_gen_labels_split(l1, l2, t1, t2);
        assert forall|i: int, j: int| 0 <= i < t1.len() && 0 <= j < t1.len() implies ((t1[i] == t1[j]) == (t2[i]
            == t2[j])) by {
            lemma_label_is_index(t1, i);
            lemma_label_is_index(t1, j);
            lemma_label_is_index(t2, i);
            lemma_label_is_index(t2, j);
            assert(label_of(l1, t1[i]) == label_of(l2, t2[i]));
            assert(label_of(l1, t1[j]) == label_of(l2, t2[j]));
        }
    }
}


proof fn lemma_pruned_is_fresh(t: Seq<i64>)
    ensures
        crate::preprocessing::pruned(t) == fresh(t, Seq::empty()),
    decreases t.len(),
{
    if t.len() > 0 {
        lemma_pruned_is_fresh(t.drop_last());
    }
}

/// Positions marked alike give the same class.
proof fn lemma_class_of_same_marks(t1: Seq<i64>, x1: i64, t2: Seq<i64>, x2: i64)
    requires
        t1.len() == t2.len(),
        forall|i: int| 0 <= i < t1.len() ==> (#[trigger] t1[i] == x1) == (t2[i] == x2),
    ensures
        crate::preprocessing::class_of(t1, x1) == crate::preprocessing::class_of(t2, x2),
    decreases t1.len(),
{
    if t1.len() > 0 {
        let d1 = t1.drop_last();
        let d2 = t2.drop_last();
        assert forall|i: int| 0 <= i < d1.len() implies (#[trigger] d1[i] == x1) == (d2[i] == x2) by {
            assert(d1[i] == t1[i] && d2[i] == t2[i]);
        }
        lemma_class_of_same_marks(d1, x1, d2, x2);
        assert((t1[t1.len() - 1] == x1) == (t2[t1.len() - 1] == x2));
    }
}

/// Tuples of one length have the same equality classes exactly when they agree on
/// which coordinates are equal.
proof fn lemma_classes_iff_pattern(t1: Seq<i64>, t2: Seq<i64>)
    requires
        t1.len() == t2.len(),
        t1.len() < 0x1_0000_0000,
    ensures
        crate::preprocessing::classes(t1) == crate::preprocessing::classes(t2) <==> forall|i: int, j: int|
            0 <= i < t1.len() && 0 <= j < t1.len() ==> ((t1[i] == t1[j]) == (t2[i] == t2[j])),
{
    let e = Seq::<i64>::empty();
    lemma_pruned_is_fresh(t1);
    lemma_pruned_is_fresh(t2);
    let p1 = crate::preprocessing::pruned(t1);
    let p2 = crate::preprocessing::pruned(t2);
    crate::preprocessing::lemma_pruned_distinct(t1);
    crate::preprocessing::lemma_pruned_distinct(t2);
    if forall|i: int, j: int| 0 <= i < t1.len() && 0 <= j < t1.len() ==> ((t1[i] == t1[j]) == (t2[i] == t2[j])) {
        lemma_fresh_same_pattern(t1, t2, t1.len() as int);
        assert(t1.take(t1.len() as int) =~= t1);
        assert(t2.take(t2.len() as int) =~= t2);
        assert forall|c: int| 0 <= c < p1.len() implies crate::preprocessing::classes(t1)[c]
            == crate::preprocessing::classes(t2)[c] by {
            assert(p1.contains(p1[c]));
            assert(t1.contains(p1[c]));
            let i = choose|i: int| 0 <= i < t1.len() && t1[i] == p1[c];
            assert(t1[i] == p1[c]);
            assert(p1.contains(t1[i]));
            lemma_first_index(p1, t1[i]);
            lemma_first_index(p2, t2[i]);
            assert(first_index(p1, t1[i]) == c) by {
                let f = first_index(p1, t1[i]);
                assert(p1[f] == p1[c]);
            }
            assert forall|k: int| 0 <= k < t1.len() implies (#[trigger] t1[k] == p1[c]) == (t2[k] == p2[c]) by {
                lemma_first_index(p1, t1[k]);
                lemma_first_index(p2, t2[k]);
                assert(t1.contains(t1[k]) && t2.contains(t2[k]));
                assert(first_index(p1, t1[k]) == first_index(p2, t2[k]));
                let fk = first_index(p1, t1[k]);
                if t1[k] == p1[c] {
                    assert(p1[fk] == p1[c]);
                    assert(fk == c);
                }
                if t2[k] == p2[c] {
                    assert(p2[fk] == t2[k]);
                    assert(fk == c);
                }
            }
            lemma_class_of_same_marks(t1, p1[c], t2, p2[c]);
        }
        assert(crate::preprocessing::classes(t1) =~= crate::preprocessing::classes(t2));
    }
    if crate::preprocessing::classes(t1) == crate::preprocessing::classes(t2) {
        let c1 = crate::preprocessing::classes(t1);
        assert(p1.len() == p2.len()) by {
            assert(c1.len() == p1.len());
        }
        assert forall|i: int, j: int| 0 <= i < t1.len() && 0 <= j < t1.len() implies ((t1[i] == t1[j]) == (t2[i]
            == t2[j])) by {
            // each position lies in the class of its value, at the same index for both tuples
            assert(t1.contains(t1[i]) && t1.contains(t1[j]) && t2.contains(t2[i]) && t2.contains(t2[j]));
            assert(p1.contains(t1[i]) && p1.contains(t1[j]) && p2.contains(t2[i]) && p2.contains(t2[j]));
            let ci = choose|c: int| 0 <= c < p1.len() && p1[c] == t1[i];
            let cj = choose|c: int| 0 <= c < p1.len() && p1[c] == t1[j];
            let di = choose|c: int| 0 <= c < p2.len() && p2[c] == t2[i];
            let dj = choose|c: int| 0 <= c < p2.len() && p2[c] == t2[j];
            crate::preprocessing::lemma_class_of_members(t1, p1[ci]);
            crate::preprocessing::lemma_class_of_members(t1, p1[cj]);
            crate::preprocessing::lemma_class_of_members(t2, p2[di]);
            crate::preprocessing::lemma_class_of_members(t2, p2[dj]);
            crate::preprocessing::lemma_class_of_members(t2, p2[ci]);
            crate::preprocessing::lemma_class_of_members(t2, p2[cj]);
            crate::preprocessing::lemma_class_of_members(t1, p1[di]);
            crate::preprocessing::lemma_class_of_members(t1, p1[dj]);
            assert(c1[ci] == crate::preprocessing::class_of(t1, p1[ci]));
            assert(crate::preprocessing::classes(t2)[ci] == crate::preprocessing::class_of(t2, p2[ci]));
            assert(crate::preprocessing::class_of(t1, p1[ci]).contains(i as usize));
            let w = choose|w: int| 0 <= w < c1[ci].len() && c1[ci][w] == i as usize;
            assert(t2[i] == p2[ci]);
            assert(crate::preprocessing::class_of(t1, p1[cj]).contains(j as usize));
            let w2 = choose|w: int| 0 <= w < c1[cj].len() && c1[cj][w] == j as usize;
            assert(t2[j] == p2[cj]);
            if t1[i] == t1[j] {
                assert(p1[ci] == p1[cj]);
                assert(ci == cj);
            }
            if t2[i] == t2[j] {
                assert(p2[ci] == p2[cj]);
                assert(ci == cj);
            }
        }
    }
}

/// Law: without operations the approximate check of the splitting search is the
/// equality-pattern check: the target mixes a fingerprint class exactly when it
/// mixes an equality pattern of the tuples over the universe.
pub proof fn law_approx_is_pattern_check(model: Model, target: crate::first_order::relops::Relation)
    requires
        model.operations.len() == 0,
        target.arity < 0x1_0000_0000,
        model.universe.len() <= usize::MAX,
    ensures
        breaks_approx(model, target) == crate::strategy::pattern_mix_spec(model.universe@, target),
{
    let u = model.universe@;
    let k = target.arity as nat;
    let ts = all_tuples(u, k);
    if breaks_approx(model, target) {
        let (i, j) = choose|i: int, j: int|
            0 <= i < ts.len() && 0 <= j < ts.len() && fingerprint(model, #[trigger] ts[i]) == fingerprint(
                model,
                #[trigger] ts[j],
            ) && target.has(ts[i]) && !target.has(ts[j]);
        lemma_all_tuples_sound(u, k, i);
        lemma_all_tuples_sound(u, k, j);
        law_fingerprint_is_pattern(model, ts[i], ts[j]);
        lemma_classes_iff_pattern(ts[i], ts[j]);
        crate::preprocessing::law_pattern_name_iff_same_pattern(ts[i], ts[j]);
        assert(crate::util::is_tuple_over(ts[i], u, k));
        assert(crate::util::is_tuple_over(ts[j], u, k));
    }
    if crate::strategy::pattern_mix_spec(u, target) {
        let (t1, t2) = choose|t1: Seq<i64>, t2: Seq<i64>|
            #![trigger crate::util::is_tuple_over(t1, u, k), crate::util::is_tuple_over(t2, u, k)]
            crate::util::is_tuple_over(t1, u, k) && crate::util::is_tuple_over(t2, u, k)
                && crate::preprocessing::pattern_name(t1) == crate::preprocessing::pattern_name(t2) && target.has(t1)
                && !target.has(t2);
        crate::preprocessing::law_pattern_name_iff_same_pattern(t1, t2);
        lemma_classes_iff_pattern(t1, t2);
        law_fingerprint_is_pattern(model, t1, t2);
        lemma_all_tuples_complete(u, t1);
        lemma_all_tuples_complete(u, t2);
        let i = choose|i: int| 0 <= i < ts.len() && ts[i] == t1;
        let j = choose|j: int| 0 <= j < ts.len() && ts[j] == t2;
        assert(fingerprint(model, ts[i]) == fingerprint(model, ts[j]));
    }
}


} // verus!
