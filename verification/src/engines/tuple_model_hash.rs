//! Isomorphism type of the substructure generated by a tuple: the elements are
//! generated layer by layer by the operations, every application is numbered,
//! and the type records which numbers name the same element and which index
//! tuples of generated elements lie in each relation.

use vstd::prelude::*;

use crate::engines::partition::{all_tuples, tuples_over};
use crate::engines::terms::{group_lt, groups_sorted, groups_view, is_op_groups, lemma_group_lt, lemma_groups_unique, lemma_op_groups_unique, op_groups};
use crate::strs::str_lt;
use crate::first_order::formulas::{first_op, lemma_first_op};
use crate::first_order::models::Model;
use crate::first_order::relops::{find_operation, Operation, Relation};
use crate::util::copy_tuple;

verus! {

/// The layers one after the other.
pub open spec fn flatten(ls: Seq<Seq<i64>>) -> Seq<i64>
    decreases ls.len(),
{
    if ls.len() == 0 {
        Seq::empty()
    } else {
        flatten(ls.drop_last()) + ls.last()
    }
}

/// Some coordinate of `t` lies in `o`.
pub open spec fn touches(t: Seq<i64>, o: Seq<i64>) -> bool {
    exists|k: int| 0 <= k < t.len() && o.contains(#[trigger] t[k])
}

/// The results of applying `op` to the tuples of `ts` that touch `o`, in order.
pub open spec fn fire(op: Operation, ts: Seq<Seq<i64>>, o: Seq<i64>) -> Seq<Option<i64>>
    decreases ts.len(),
{
    if ts.len() == 0 {
        Seq::empty()
    } else {
        let r = fire(op, ts.drop_last(), o);
        if touches(ts.last(), o) {
            r.push(op.spec_call(ts.last()))
        } else {
            r
        }
    }
}

/// The applications of one round: for each operation group in order, the
/// operation on every tuple over `flath` that touches the last layer `o`.
pub open spec fn group_events(ops: Seq<Operation>, gs: Seq<(Seq<char>, nat)>, flath: Seq<i64>, o: Seq<i64>) -> Seq<
    Option<i64>,
>
    decreases gs.len(),
{
    if gs.len() == 0 {
        Seq::empty()
    } else {
        group_events(ops, gs.drop_last(), flath, o) + match first_op(ops, gs.last().0) {
            Some(op) => fire(op, all_tuples(flath, gs.last().1), o),
            None => Seq::empty(),
        }
    }
}

/// The defined values among the applications, in order.
pub open spec fn somes(ev: Seq<Option<i64>>) -> Seq<i64>
    decreases ev.len(),
{
    if ev.len() == 0 {
        Seq::empty()
    } else {
        match ev.last() {
            Some(x) => somes(ev.drop_last()).push(x),
            None => somes(ev.drop_last()),
        }
    }
}

/// The values of `xs` not in `seen`, each once, in order of first appearance.
pub open spec fn fresh(xs: Seq<i64>, seen: Seq<i64>) -> Seq<i64>
    decreases xs.len(),
{
    if xs.len() == 0 {
        Seq::empty()
    } else {
        let r = fresh(xs.drop_last(), seen);
        if seen.contains(xs.last()) || r.contains(xs.last()) {
            r
        } else {
            r.push(xs.last())
        }
    }
}

/// The values of all table entries of the operations.
pub open spec fn table_vals(ops: Seq<Operation>) -> Seq<i64>
    decreases ops.len(),
{
    if ops.len() == 0 {
        Seq::empty()
    } else {
        table_vals(ops.drop_last()) + ops.last().op@.map_values(|e: (Vec<i64>, i64)| e.1)
    }
}

/// How many entries of `cands` are not in `seen`.
pub open spec fn missing(cands: Seq<i64>, seen: Seq<i64>) -> nat
    decreases cands.len(),
{
    if cands.len() == 0 {
        0
    } else {
        missing(cands.drop_last(), seen) + if seen.contains(cands.last()) {
            0nat
        } else {
            1nat
        }
    }
}

/// Every element of `xs` lies in `cands`.
pub open spec fn all_in(xs: Seq<i64>, cands: Seq<i64>) -> bool {
    forall|k: int| 0 <= k < xs.len() ==> cands.contains(#[trigger] xs[k])
}

/// Seeing more leaves fewer entries missing, and strictly fewer when an entry
/// of `cands` is seen anew.
pub proof fn lemma_missing(cands: Seq<i64>, a: Seq<i64>, b: Seq<i64>, x: i64)
    requires
        forall|y: i64| a.contains(y) ==> b.contains(y),
    ensures
        missing(cands, b) <= missing(cands, a),
        cands.contains(x) && b.contains(x) && !a.contains(x) ==> missing(cands, b) < missing(cands, a),
    decreases cands.len(),
{
    if cands.len() > 0 {
        let c = cands.drop_last();
        lemma_missing(c, a, b, x);
        if cands.contains(x) && b.contains(x) && !a.contains(x) {
            let k = choose|k: int| 0 <= k < cands.len() && cands[k] == x;
            if k < cands.len() - 1 {
                assert(c[k] == x);
            }
        }
    }
}

/// Layers grown from `layers` until a round brings no new element: the
/// layers (the last one empty when the closure ended there) and all
/// applications in order. `cands` bounds the elements that can appear.
pub open spec fn closure(ops: Seq<Operation>, gs: Seq<(Seq<char>, nat)>, cands: Seq<i64>, layers: Seq<Seq<i64>>) -> (
    Seq<Seq<i64>>,
    Seq<Option<i64>>,
)
    decreases missing(cands, flatten(layers)),
{
    if layers.len() == 0 || layers.last().len() == 0 {
        (layers, Seq::empty())
    } else {
        let flath = flatten(layers);
        let ev = group_events(ops, gs, flath, layers.last());
        let next = fresh(somes(ev), flath);
        if next.len() == 0 || !all_in(next, cands) || flath.contains(next[0]) {
            (layers.push(next), ev)
        } else {
            proof {
                let nl = layers.push(next);
                assert(nl.drop_last() =~= layers);
                assert(flatten(nl) == flath + next);
                assert forall|y: i64| flath.contains(y) implies (flath + next).contains(y) by {
                    let k = choose|k: int| 0 <= k < flath.len() && flath[k] == y;
                    assert((flath + next)[k] == y);
                }
                assert((flath + next)[flath.len() as int] == next[0]);
                assert(cands.contains(next[0]));
                lemma_missing(cands, flath, flath + next, next[0]);
            }
            let r = closure(ops, gs, cands, layers.push(next));
            (r.0, ev + r.1)
        }
    }
}

/// Every defined application gives a value in `tv`.
pub open spec fn vals_in(ev: Seq<Option<i64>>, tv: Seq<i64>) -> bool {
    forall|k: int| 0 <= k < ev.len() ==> (#[trigger] ev[k] matches Some(x) ==> tv.contains(x))
}

pub proof fn lemma_table_value(entries: Seq<(Vec<i64>, i64)>, key: Seq<i64>)
    ensures
        table_lookup_some_in(entries, key),
    decreases entries.len(),
{
    if entries.len() > 0 {
        lemma_table_value(entries.drop_last(), key);
        if entries.last().0@ != key {
            if let Some(v) = crate::first_order::relops::table_lookup(entries, key) {
                let k = choose|k: int| 0 <= k < entries.drop_last().len() && entries.drop_last()[k].1 == v;
                assert(entries[k].1 == v);
            }
        } else {
            assert(entries[entries.len() - 1].1 == entries.last().1);
        }
    }
}

/// A defined look-up gives the value of some entry.
pub open spec fn table_lookup_some_in(entries: Seq<(Vec<i64>, i64)>, key: Seq<i64>) -> bool {
    match crate::first_order::relops::table_lookup(entries, key) {
        Some(v) => exists|k: int| 0 <= k < entries.len() && entries[k].1 == v,
        None => true,
    }
}

pub proof fn lemma_table_vals_has(ops: Seq<Operation>, i: int, k: int)
    requires
        0 <= i < ops.len(),
        0 <= k < ops[i].op@.len(),
    ensures
        table_vals(ops).contains(ops[i].op@[k].1),
    decreases ops.len(),
{
    let last = ops.last().op@.map_values(|e: (Vec<i64>, i64)| e.1);
    if i == ops.len() - 1 {
        assert(last[k] == ops[i].op@[k].1);
        assert(table_vals(ops)[table_vals(ops.drop_last()).len() + k] == last[k]);
    } else {
        lemma_table_vals_has(ops.drop_last(), i, k);
        assert(ops.drop_last()[i] == ops[i]);
        let w = choose|w: int| 0 <= w < table_vals(ops.drop_last()).len() && table_vals(ops.drop_last())[w] == ops[i].op@[k].1;
        assert(table_vals(ops)[w] == ops[i].op@[k].1);
    }
}

proof fn lemma_first_op_in(ops: Seq<Operation>, name: Seq<char>)
    ensures
        first_op(ops, name) matches Some(op) ==> exists|i: int| 0 <= i < ops.len() && ops[i] == op,
    decreases ops.len(),
{
    if ops.len() > 0 && ops[0].sym@ != name {
        lemma_first_op_in(ops.drop_first(), name);
        if let Some(op) = first_op(ops, name) {
            let i = choose|i: int| 0 <= i < ops.drop_first().len() && ops.drop_first()[i] == op;
            assert(ops[i + 1] == op);
        }
    }
}

proof fn lemma_fire_vals(ops: Seq<Operation>, i: int, ts: Seq<Seq<i64>>, o: Seq<i64>)
    requires
        0 <= i < ops.len(),
    ensures
        vals_in(fire(ops[i], ts, o), table_vals(ops)),
    decreases ts.len(),
{
    if ts.len() > 0 {
        lemma_fire_vals(ops, i, ts.drop_last(), o);
        let r = fire(ops[i], ts.drop_last(), o);
        if touches(ts.last(), o) {
            let f = fire(ops[i], ts, o);
            assert forall|k: int| 0 <= k < f.len() implies (#[trigger] f[k] matches Some(x) ==> table_vals(ops).contains(x)) by {
                if k < r.len() {
                    assert(f[k] == r[k]);
                } else if let Some(x) = f[k] {
                    assert(f[k] == ops[i].spec_call(ts.last()));
                    lemma_table_value(ops[i].op@, ts.last());
                    let e = choose|e: int| 0 <= e < ops[i].op@.len() && ops[i].op@[e].1 == x;
                    lemma_table_vals_has(ops, i, e);
                }
            }
        }
    }
}

proof fn lemma_group_events_vals(ops: Seq<Operation>, gs: Seq<(Seq<char>, nat)>, flath: Seq<i64>, o: Seq<i64>)
    ensures
        vals_in(group_events(ops, gs, flath, o), table_vals(ops)),
    decreases gs.len(),
{
    if gs.len() > 0 {
        lemma_group_events_vals(ops, gs.drop_last(), flath, o);
        let a = group_events(ops, gs.drop_last(), flath, o);
        let all = group_events(ops, gs, flath, o);
        lemma_first_op_in(ops, gs.last().0);
        match first_op(ops, gs.last().0) {
            Some(op) => {
                let i = choose|i: int| 0 <= i < ops.len() && ops[i] == op;
                let b = fire(ops[i], all_tuples(flath, gs.last().1), o);
                lemma_fire_vals(ops, i, all_tuples(flath, gs.last().1), o);
                assert(all == a + b);
                assert forall|k: int| 0 <= k < all.len() implies (#[trigger] all[k] matches Some(x) ==> table_vals(ops).contains(x)) by {
                    if k < a.len() {
                        assert(all[k] == a[k]);
                    } else {
                        assert(all[k] == b[k - a.len()]);
                    }
                }
            },
            None => {
                assert(all =~= a);
            },
        }
    }
}

proof fn lemma_somes_in(ev: Seq<Option<i64>>, tv: Seq<i64>)
    requires
        vals_in(ev, tv),
    ensures
        all_in(somes(ev), tv),
    decreases ev.len(),
{
    if ev.len() > 0 {
        let d = ev.drop_last();
        assert(vals_in(d, tv)) by {
            assert forall|k: int| 0 <= k < d.len() implies (#[trigger] d[k] matches Some(x) ==> tv.contains(x)) by {
                assert(d[k] == ev[k]);
            }
        }
        lemma_somes_in(d, tv);
        assert(ev[ev.len() - 1] == ev.last());
    }
}

pub proof fn lemma_fresh(xs: Seq<i64>, seen: Seq<i64>)
    ensures
        forall|k: int| 0 <= k < fresh(xs, seen).len() ==> xs.contains(#[trigger] fresh(xs, seen)[k]) && !seen.contains(fresh(xs, seen)[k]),
        forall|a: int, b: int| 0 <= a < b < fresh(xs, seen).len() ==> #[trigger] fresh(xs, seen)[a] != #[trigger] fresh(xs, seen)[b],
        forall|k: int| 0 <= k < xs.len() && !seen.contains(#[trigger] xs[k]) ==> fresh(xs, seen).contains(xs[k]),
    decreases xs.len(),
{
    if xs.len() > 0 {
        let d = xs.drop_last();
        lemma_fresh(d, seen);
        let r = fresh(d, seen);
        let f = fresh(xs, seen);
        assert forall|k: int| 0 <= k < f.len() implies xs.contains(#[trigger] f[k]) && !seen.contains(f[k]) by {
            if k < r.len() {
                assert(f[k] == r[k]);
                let w = choose|w: int| 0 <= w < d.len() && d[w] == r[k];
                assert(xs[w] == r[k]);
            } else {
                assert(xs[xs.len() - 1] == xs.last());
            }
        }
        assert forall|k: int| 0 <= k < xs.len() && !seen.contains(#[trigger] xs[k]) implies f.contains(xs[k]) by {
            if k < xs.len() - 1 {
                assert(d[k] == xs[k]);
                let w = choose|w: int| 0 <= w < r.len() && r[w] == xs[k];
                assert(f[w] == xs[k]);
            } else {
                if r.contains(xs.last()) {
                    let w = choose|w: int| 0 <= w < r.len() && r[w] == xs.last();
                    assert(f[w] == xs[k]);
                } else {
                    assert(f[r.len() as int] == xs[k]);
                }
            }
        }
    }
}

/// The layers one after the other.
fn flatten_layers(layers: &Vec<Vec<i64>>) -> (r: Vec<i64>)
    ensures
        r@ == flatten(layers.deep_view()),
{
    let ghost lv = layers.deep_view();
    let mut out: Vec<i64> = Vec::new();
    let mut i: usize = 0;
    proof {
        assert(out@ =~= flatten(lv.take(0)));
    }
    while i < layers.len()
        invariant
            i <= layers.len(),
            lv == layers.deep_view(),
            out@ == flatten(lv.take(i as int)),
        decreases layers.len() - i,
    {
        let layer = &layers[i];
        let ghost start = out@;
        let mut j: usize = 0;
        while j < layer.len()
            invariant
                j <= layer.len(),
                out@ == start + layer@.take(j as int),
            decreases layer.len() - j,
        {
            out.push(layer[j]);
            j += 1;
            proof {
                assert(out@ =~= start + layer@.take(j as int));
            }
        }
        proof {
            assert(layer@.take(layer.len() as int) =~= layer@);
            assert(lv[i as int] == layer@);
            assert(lv.take(i + 1).drop_last() =~= lv.take(i as int));
            assert(lv.take(i + 1).last() == layer@);
        }
        i += 1;
    }
    proof {
        assert(lv.take(layers.len() as int) =~= lv);
    }
    out
}

/// `x` is among `xs`.
pub fn has_value(xs: &Vec<i64>, x: i64) -> (r: bool)
    ensures
        r == xs@.contains(x),
{
    let mut i: usize = 0;
    while i < xs.len()
        invariant
            i <= xs.len(),
            forall|k: int| 0 <= k < i ==> xs@[k] != x,
        decreases xs.len() - i,
    {
        if xs[i] == x {
            proof {
                assert(xs@[i as int] == x);
            }
            return true;
        }
        i += 1;
    }
    false
}

/// Some coordinate of `t` lies in `o`.
fn touches_exec(t: &Vec<i64>, o: &Vec<i64>) -> (r: bool)
    ensures
        r == touches(t@, o@),
{
    let mut k: usize = 0;
    while k < t.len()
        invariant
            k <= t.len(),
            forall|j: int| 0 <= j < k ==> !o@.contains(#[trigger] t@[j]),
        decreases t.len() - k,
    {
        if has_value(o, t[k]) {
            return true;
        }
        k += 1;
    }
    false
}

/// The applications of one round.
fn round_events(model: &Model, groups: &Vec<(String, usize)>, flath: &Vec<i64>, o: &Vec<i64>) -> (r: Vec<Option<i64>>)
    requires
        model.wf(),
    ensures
        r@ == group_events(model.operations@, groups_view(groups@), flath@, o@),
{
    let ghost ops = model.operations@;
    let ghost gv = groups_view(groups@);
    let mut ev: Vec<Option<i64>> = Vec::new();
    let mut g: usize = 0;
    proof {
        assert(gv.take(0) =~= Seq::<(Seq<char>, nat)>::empty());
    }
    while g < groups.len()
        invariant
            g <= groups.len(),
            model.wf(),
            ops == model.operations@,
            gv == groups_view(groups@),
            ev@ == group_events(ops, gv.take(g as int), flath@, o@),
        decreases groups.len() - g,
    {
        let ghost before = ev@;
        proof {
            assert(gv.take(g + 1).drop_last() =~= gv.take(g as int));
            assert(gv.take(g + 1).last() == gv[g as int]);
            assert(gv[g as int] == (groups@[g as int].0@, groups@[g as int].1 as nat));
            lemma_first_op(ops, groups@[g as int].0@);
        }
        match find_operation(&model.operations, &groups[g].0) {
            Some(idx) => {
                let op = &model.operations[idx];
                proof {
                    assert(first_op(ops, gv[g as int].0) == Some(ops[idx as int]));
                }
                let ts = tuples_over(flath, groups[g].1);
                let ghost tv = ts.deep_view();
                let mut t: usize = 0;
                let ghost mid = ev@;
                proof {
                    assert(tv.take(0) =~= Seq::<Seq<i64>>::empty());
                    assert(ev@ =~= mid + fire(*op, tv.take(0), o@));
                }
                while t < ts.len()
                    invariant
                        t <= ts.len(),
                        model.wf(),
                        idx < model.operations.len(),
                        *op == model.operations@[idx as int],
                        tv == ts.deep_view(),
                        ev@ == mid + fire(*op, tv.take(t as int), o@),
                    decreases ts.len() - t,
                {
                    proof {
                        assert(tv[t as int] == ts@[t as int]@);
                        assert(tv.take(t + 1).drop_last() =~= tv.take(t as int));
                        assert(tv.take(t + 1).last() == tv[t as int]);
                        assert(op.wf());
                    }
                    if touches_exec(&ts[t], o) {
                        let v = op.call(ts[t].as_slice());
                        ev.push(v);
                        proof {
                            assert(ev@ =~= mid + fire(*op, tv.take(t + 1), o@));
                        }
                    }
                    t += 1;
                }
                proof {
                    assert(tv.take(ts.len() as int) =~= tv);
                    assert(tv == all_tuples(flath@, gv[g as int].1));
                }
            },
            None => {
                proof {
                    assert(first_op(ops, gv[g as int].0) is None);
                    assert(ev@ =~= before + Seq::<Option<i64>>::empty());
                }
            },
        }
        g += 1;
    }
    proof {
        assert(gv.take(groups.len() as int) =~= gv);
    }
    ev
}

/// The values of `ev` not in `seen`, each once, in order of first appearance;
/// `None` when an application is undefined.
fn fresh_values(ev: &Vec<Option<i64>>, seen: &Vec<i64>) -> (r: Option<Vec<i64>>)
    ensures
        match r {
            Some(v) => v@ == fresh(somes(ev@), seen@) && forall|k: int| 0 <= k < ev.len() ==> #[trigger] ev@[k] is Some,
            None => exists|k: int| 0 <= k < ev.len() && #[trigger] ev@[k] is None,
        },
{
    let mut out: Vec<i64> = Vec::new();
    let mut i: usize = 0;
    proof {
        assert(ev@.take(0) =~= Seq::<Option<i64>>::empty());
    }
    while i < ev.len()
        invariant
            i <= ev.len(),
            out@ == fresh(somes(ev@.take(i as int)), seen@),
            forall|k: int| 0 <= k < i ==> #[trigger] ev@[k] is Some,
        decreases ev.len() - i,
    {
        proof {
            assert(ev@.take(i + 1).drop_last() =~= ev@.take(i as int));
            assert(ev@.take(i + 1).last() == ev@[i as int]);
        }
        match ev[i] {
            Some(x) => {
                let ghost xs = somes(ev@.take(i + 1));
                proof {
                    assert(xs == somes(ev@.take(i as int)).push(x));
                    assert(xs.drop_last() =~= somes(ev@.take(i as int)));
                    assert(xs.last() == x);
                }
                if !has_value(seen, x) && !has_value(&out, x) {
                    out.push(x);
                }
            },
            None => {
                return None;
            },
        }
        i += 1;
    }
    proof {
        assert(ev@.take(ev.len() as int) =~= ev@);
    }
    Some(out)
}

/// `gs` lists the relations as `(name, arity)`, strictly in group order.
pub open spec fn is_rel_groups(gs: Seq<(Seq<char>, nat)>, rels: Seq<Relation>) -> bool {
    &&& groups_sorted(gs)
    &&& forall|g: (Seq<char>, nat)|
        #[trigger] gs.contains(g) <==> exists|i: int| 0 <= i < rels.len() && g == (#[trigger] rels[i].sym@, rels[i].arity as nat)
}

/// Group order on executable groups.
fn group_less_rel(a: &(String, usize), b: &(String, usize)) -> (r: bool)
    ensures
        r == group_lt((a.0@, a.1 as nat), (b.0@, b.1 as nat)),
{
    a.1 < b.1 || (a.1 == b.1 && str_lt(a.0.as_str(), b.0.as_str()))
}

/// The relations as `(name, arity)`, by arity and then by name.
fn rel_groups(rels: &Vec<Relation>) -> (gs: Vec<(String, usize)>)
    requires
        forall|i: int, j: int| 0 <= i < j < rels.len() ==> (#[trigger] rels@[i]).sym@ != (#[trigger] rels@[j]).sym@,
    ensures
        is_rel_groups(groups_view(gs@), rels@),
{
    let mut r: Vec<(String, usize)> = Vec::new();
    let mut i: usize = 0;
    proof {
        assert(groups_view(r@) =~= Seq::<(Seq<char>, nat)>::empty());
    }
    while i < rels.len()
        invariant
            i <= rels.len(),
            forall|a: int, b: int| 0 <= a < b < rels.len() ==> (#[trigger] rels@[a]).sym@ != (#[trigger] rels@[b]).sym@,
            groups_sorted(groups_view(r@)),
            forall|g: (Seq<char>, nat)|
                #[trigger] groups_view(r@).contains(g) <==> exists|k: int|
                    0 <= k < i && g == (#[trigger] rels@[k].sym@, rels@[k].arity as nat),
        decreases rels.len() - i,
    {
        let x = (rels[i].sym.clone(), rels[i].arity);
        let ghost xv = (x.0@, x.1 as nat);
        let ghost before = groups_view(r@);
        proof {
            assert(!before.contains(xv)) by {
                if before.contains(xv) {
                    let k = choose|k: int|
                        0 <= k < i && xv == (#[trigger] rels@[k].sym@, rels@[k].arity as nat);
                    assert(rels@[k].sym@ == rels@[i as int].sym@);
                }
            }
        }
        let mut pos: usize = 0;
        while pos < r.len() && group_less_rel(&r[pos], &x)
            invariant
                pos <= r.len(),
                before == groups_view(r@),
                xv == (x.0@, x.1 as nat),
                forall|k: int| 0 <= k < pos ==> group_lt(#[trigger] before[k], xv),
            decreases r.len() - pos,
        {
            proof {
                assert(before[pos as int] == (r@[pos as int].0@, r@[pos as int].1 as nat));
            }
            pos += 1;
        }
        proof {
            if pos < r.len() {
                assert(before[pos as int] == (r@[pos as int].0@, r@[pos as int].1 as nat));
                assert(!group_lt(before[pos as int], xv));
                assert(before.contains(before[pos as int]));
                lemma_group_lt(before[pos as int], xv, xv);
                assert(group_lt(xv, before[pos as int]));
            }
        }
        r.insert(pos, x);
        proof {
            let after = groups_view(r@);
            assert(after =~= before.insert(pos as int, xv));
            assert forall|a: int, b: int| 0 <= a < b < after.len() implies group_lt(#[trigger] after[a], #[trigger] after[b]) by {
                if b < pos {
                    assert(after[a] == before[a] && after[b] == before[b]);
                } else if b == pos {
                    assert(after[a] == before[a]);
                } else if a == pos {
                    assert(after[b] == before[b - 1]);
                    if b - 1 > pos {
                        lemma_group_lt(xv, before[pos as int], before[b - 1]);
                    }
                } else if a < pos {
                    assert(after[a] == before[a] && after[b] == before[b - 1]);
                    lemma_group_lt(before[a], xv, before[b - 1]);
                    if b - 1 > pos {
                        lemma_group_lt(xv, before[pos as int], before[b - 1]);
                    }
                } else {
                    assert(after[a] == before[a - 1] && after[b] == before[b - 1]);
                }
            }
            assert forall|g: (Seq<char>, nat)|
                #[trigger] after.contains(g) <==> exists|k: int|
                    0 <= k < i + 1 && g == (#[trigger] rels@[k].sym@, rels@[k].arity as nat) by {
                if after.contains(g) {
                    let k = choose|k: int| 0 <= k < after.len() && after[k] == g;
                    if k < pos {
                        assert(before[k] == g);
                        assert(before.contains(g));
                    } else if k > pos {
                        assert(before[k - 1] == g);
                        assert(before.contains(g));
                    } else {
                        assert(g == (rels@[i as int].sym@, rels@[i as int].arity as nat));
                    }
                }
                if exists|k: int|
                    0 <= k < i + 1 && g == (#[trigger] rels@[k].sym@, rels@[k].arity as nat) {
                    let k = choose|k: int|
                        0 <= k < i + 1 && g == (#[trigger] rels@[k].sym@, rels@[k].arity as nat);
                    if k < i {
                        assert(before.contains(g));
                        let w = choose|w: int| 0 <= w < before.len() && before[w] == g;
                        if w < pos {
                            assert(after[w] == g);
                        } else {
                            assert(after[w + 1] == g);
                        }
                    } else {
                        assert(after[pos as int] == g);
                    }
                }
            }
        }
        i += 1;
    }
    r
}



/// The operation groups of positive arity, in group order.
pub open spec fn tmh_op_groups(ops: Seq<Operation>) -> Seq<(Seq<char>, nat)> {
    choose|gs: Seq<(Seq<char>, nat)>| is_op_groups(gs, ops)
}

/// The relation groups, in group order.
pub open spec fn tmh_rel_groups(rels: Seq<Relation>) -> Seq<(Seq<char>, nat)> {
    choose|gs: Seq<(Seq<char>, nat)>| is_rel_groups(gs, rels)
}

/// The generated layers and all applications, for generators `gens`.
pub open spec fn tmh_run(model: Model, gens: Seq<i64>) -> (Seq<Seq<i64>>, Seq<Option<i64>>) {
    closure(
        model.operations@,
        tmh_op_groups(model.operations@),
        gens + table_vals(model.operations@),
        seq![gens],
    )
}

/// The generated elements: the generators, then each new element in order.
pub open spec fn tmh_flat(model: Model, gens: Seq<i64>) -> Seq<i64> {
    flatten(tmh_run(model, gens).0.drop_last())
}

/// Every application during generation is defined.
pub open spec fn tmh_defined(model: Model, gens: Seq<i64>) -> bool {
    forall|k: int| 0 <= k < tmh_run(model, gens).1.len() ==> #[trigger] tmh_run(model, gens).1[k] is Some
}

/// The numbers given to generators and applications fit in `usize`.
pub open spec fn tmh_fits(model: Model, gens: Seq<i64>) -> bool {
    gens.len() + tmh_run(model, gens).1.len() < usize::MAX
}

/// Number of the first application minus one: the last generator position.
pub open spec fn start_index(n: nat) -> nat {
    if n > 0 {
        (n - 1) as nat
    } else {
        0
    }
}

/// Positions of `x` among the generators, ascending.
pub open spec fn gen_positions(gens: Seq<i64>, x: i64) -> Seq<usize>
    decreases gens.len(),
{
    if gens.len() == 0 {
        Seq::empty()
    } else {
        gen_positions(gens.drop_last(), x) + if gens.last() == x {
            seq![(gens.len() - 1) as usize]
        } else {
            Seq::empty()
        }
    }
}

/// Numbers `base + g` of the applications `g` that gave `x`, ascending.
pub open spec fn event_positions(ev: Seq<Option<i64>>, x: i64, base: nat) -> Seq<usize>
    decreases ev.len(),
{
    if ev.len() == 0 {
        Seq::empty()
    } else {
        event_positions(ev.drop_last(), x, base) + if ev.last() == Some(x) {
            seq![(base + ev.len() - 1) as usize]
        } else {
            Seq::empty()
        }
    }
}

/// All numbers that name `x`: its generator positions, then the numbers of
/// the applications that gave it, applications numbered on from the last
/// generator position.
pub open spec fn index_set(gens: Seq<i64>, ev: Seq<Option<i64>>, x: i64) -> Seq<usize> {
    gen_positions(gens, x) + event_positions(ev, x, start_index(gens.len()) + 1)
}

/// The index sets of the distinct generated elements, in order of first appearance.
pub open spec fn type_sets(gens: Seq<i64>, ev: Seq<Option<i64>>, flat: Seq<i64>) -> Seq<Seq<usize>> {
    fresh(flat, Seq::empty()).map_values(|x: i64| index_set(gens, ev, x))
}

/// Positions of first occurrences in `flat`, ascending.
pub open spec fn first_positions(flat: Seq<i64>) -> Seq<usize>
    decreases flat.len(),
{
    if flat.len() == 0 {
        Seq::empty()
    } else {
        first_positions(flat.drop_last()) + if flat.drop_last().contains(flat.last()) {
            Seq::empty()
        } else {
            seq![(flat.len() - 1) as usize]
        }
    }
}

/// All `k`-tuples of the positions `ps`, the first coordinate varying slowest.
pub open spec fn position_tuples(ps: Seq<usize>, k: nat) -> Seq<Seq<usize>> {
    crate::engines::terms::index_tuples(ps.len() as usize, k).map_values(|it: Seq<usize>| it.map_values(|i: usize| ps[i as int]))
}

/// The elements at the positions `t`.
pub open spec fn at_positions(flat: Seq<i64>, t: Seq<usize>) -> Seq<i64> {
    t.map_values(|p: usize| flat[p as int])
}

/// The position tuples whose elements lie in the relation, in order.
pub open spec fn held(rel: Relation, flat: Seq<i64>, ts: Seq<Seq<usize>>) -> Seq<Seq<usize>>
    decreases ts.len(),
{
    if ts.len() == 0 {
        Seq::empty()
    } else {
        let r = held(rel, flat, ts.drop_last());
        if rel.has(at_positions(flat, ts.last())) {
            r.push(ts.last())
        } else {
            r
        }
    }
}

/// The fingerprint of a relation on the generated elements: the tuples of
/// first-occurrence positions whose elements lie in it, in ascending order.
pub open spec fn rel_fp(rel: Relation, flat: Seq<i64>) -> Seq<Seq<usize>> {
    held(rel, flat, position_tuples(first_positions(flat), rel.arity as nat))
}

/// The relation with a given name.
pub open spec fn rel_named(rels: Seq<Relation>, sym: Seq<char>) -> Relation {
    rels[choose|i: int| 0 <= i < rels.len() && rels[i].sym@ == sym]
}

/// The fingerprints of all relations, by arity and then by name.
pub open spec fn relation_fps(rels: Seq<Relation>, flat: Seq<i64>) -> Seq<Seq<Seq<usize>>> {
    tmh_rel_groups(rels).map_values(|g: (Seq<char>, nat)| rel_fp(rel_named(rels, g.0), flat))
}

/// The isomorphism type of the substructure generated by a tuple.
pub struct TupleModelHash {
    pub generator_tuple: Vec<i64>,
    /// The generated elements: the generators, then each new element in order.
    pub flat_h: Vec<i64>,
    /// For each distinct element, the numbers that name it.
    pub type_index_sets: Vec<Vec<usize>>,
    /// For each relation, the position tuples of generated elements in it.
    pub relations_fp: Vec<Vec<Vec<usize>>>,
}

/// The isomorphism type alone, without the elements that carry it.
#[derive(Debug, Clone, PartialEq, Eq, Hash)]
pub struct CompactIsoType {
    pub type_index_sets: Vec<Vec<usize>>,
    pub relations_fp: Vec<Vec<Vec<usize>>>,
}

/// Two compact types are the same: equal index sets and equal relation fingerprints.
pub open spec fn compact_same(a: CompactIsoType, b: CompactIsoType) -> bool {
    a.type_index_sets.deep_view() == b.type_index_sets.deep_view() && a.relations_fp.deep_view()
        == b.relations_fp.deep_view()
}

impl CompactIsoType {
    /// The two compact types are the same.
    pub fn same(&self, other: &Self) -> (r: bool)
        ensures
            r == compact_same(*self, *other),
            r <==> (self.type_index_sets.deep_view() == other.type_index_sets.deep_view()
                && self.relations_fp.deep_view() == other.relations_fp.deep_view()),
    {
        sets_eq(&self.type_index_sets, &other.type_index_sets) && fps_eq(&self.relations_fp, &other.relations_fp)
    }
}

/// `h` is the type of the tuple `gens` in the model.
pub open spec fn is_tmh_of(h: TupleModelHash, model: Model, gens: Seq<i64>) -> bool {
    let flat = tmh_flat(model, gens);
    &&& h.generator_tuple@ == gens
    &&& h.flat_h@ == flat
    &&& h.type_index_sets.deep_view() == type_sets(gens, tmh_run(model, gens).1, flat)
    &&& h.relations_fp.deep_view() == relation_fps(model.relations@, flat)
}


/// The distinct values of `xs`, in order of first appearance.
fn distinct_values(xs: &Vec<i64>) -> (r: Vec<i64>)
    ensures
        r@ == fresh(xs@, Seq::empty()),
{
    let mut out: Vec<i64> = Vec::new();
    let mut i: usize = 0;
    proof {
        assert(xs@.take(0) =~= Seq::<i64>::empty());
    }
    while i < xs.len()
        invariant
            i <= xs.len(),
            out@ == fresh(xs@.take(i as int), Seq::empty()),
        decreases xs.len() - i,
    {
        proof {
            assert(xs@.take(i + 1).drop_last() =~= xs@.take(i as int));
            assert(xs@.take(i + 1).last() == xs@[i as int]);
            assert(!Seq::<i64>::empty().contains(xs@[i as int]));
        }
        if !has_value(&out, xs[i]) {
            out.push(xs[i]);
        }
        i += 1;
    }
    proof {
        assert(xs@.take(xs.len() as int) =~= xs@);
    }
    out
}

/// All numbers that name `x`.
fn index_set_exec(gens: &Vec<i64>, ev: &Vec<Option<i64>>, x: i64) -> (r: Vec<usize>)
    requires
        gens.len() + ev.len() < usize::MAX,
    ensures
        r@ == index_set(gens@, ev@, x),
{
    let mut out: Vec<usize> = Vec::new();
    let mut j: usize = 0;
    proof {
        assert(gens@.take(0) =~= Seq::<i64>::empty());
        assert(out@ =~= gen_positions(gens@.take(0), x));
    }
    while j < gens.len()
        invariant
            j <= gens.len(),
            out@ == gen_positions(gens@.take(j as int), x),
        decreases gens.len() - j,
    {
        proof {
            assert(gens@.take(j + 1).drop_last() =~= gens@.take(j as int));
            assert(gens@.take(j + 1).last() == gens@[j as int]);
        }
        if gens[j] == x {
            out.push(j);
        }
        j += 1;
        proof {
            assert(out@ =~= gen_positions(gens@.take(j as int), x));
        }
    }
    proof {
        assert(gens@.take(gens.len() as int) =~= gens@);
    }
    let ghost gp = out@;
    let base: usize = if gens.len() > 0 {
        gens.len()
    } else {
        1
    };
    proof {
        assert(base == start_index(gens.len() as nat) + 1);
    }
    let mut g: usize = 0;
    proof {
        assert(ev@.take(0) =~= Seq::<Option<i64>>::empty());
        assert(out@ =~= gp + event_positions(ev@.take(0), x, base as nat));
    }
    while g < ev.len()
        invariant
            g <= ev.len(),
            gens.len() + ev.len() < usize::MAX,
            base <= gens.len() + 1,
            out@ == gp + event_positions(ev@.take(g as int), x, base as nat),
        decreases ev.len() - g,
    {
        proof {
            assert(ev@.take(g + 1).drop_last() =~= ev@.take(g as int));
            assert(ev@.take(g + 1).last() == ev@[g as int]);
        }
        if ev[g] == Some(x) {
            out.push(base + g);
        }
        g += 1;
        proof {
            assert(out@ =~= gp + event_positions(ev@.take(g as int), x, base as nat));
        }
    }
    proof {
        assert(ev@.take(ev.len() as int) =~= ev@);
    }
    out
}

/// Positions of first occurrences in `flat`.
fn first_positions_exec(flat: &Vec<i64>) -> (r: Vec<usize>)
    ensures
        r@ == first_positions(flat@),
        forall|k: int| 0 <= k < r.len() ==> #[trigger] r@[k] < flat.len(),
{
    let mut out: Vec<usize> = Vec::new();
    let mut p: usize = 0;
    proof {
        assert(flat@.take(0) =~= Seq::<i64>::empty());
    }
    while p < flat.len()
        invariant
            p <= flat.len(),
            out@ == first_positions(flat@.take(p as int)),
            forall|k: int| 0 <= k < out.len() ==> #[trigger] out@[k] < p,
        decreases flat.len() - p,
    {
        let ghost tk = flat@.take(p + 1);
        proof {
            assert(tk.drop_last() =~= flat@.take(p as int));
            assert(tk.last() == flat@[p as int]);
        }
        let mut seen = false;
        let mut q: usize = 0;
        while q < p
            invariant
                q <= p < flat.len(),
                seen == flat@.take(q as int).contains(flat@[p as int]),
            decreases p - q,
        {
            proof {
                assert(flat@.take(q + 1) =~= flat@.take(q as int).push(flat@[q as int]));
                if flat@.take(q as int).contains(flat@[p as int]) {
                    let pv = flat@.take(q as int);
                    let w = choose|w: int| 0 <= w < pv.len() && pv[w] == flat@[p as int];
                    assert(flat@.take(q + 1)[w] == flat@[p as int]);
                }
                let nx = flat@.take(q + 1);
                if nx.contains(flat@[p as int]) && flat@[q as int] != flat@[p as int] {
                    let w = choose|w: int| 0 <= w < nx.len() && nx[w] == flat@[p as int];
                    assert(w < q);
                    assert(flat@.take(q as int)[w] == flat@[p as int]);
                }
                if flat@[q as int] == flat@[p as int] {
                    assert(flat@.take(q + 1)[q as int] == flat@[p as int]);
                }
            }
            if flat[q] == flat[p] {
                seen = true;
            }
            q += 1;
        }
        if !seen {
            out.push(p);
        }
        p += 1;
        proof {
            assert(out@ =~= first_positions(flat@.take(p as int)));
        }
    }
    proof {
        assert(flat@.take(flat.len() as int) =~= flat@);
    }
    out
}

/// The fingerprint of one relation on the generated elements.
fn rel_fp_exec(rel: &Relation, flat: &Vec<i64>, firsts: &Vec<usize>) -> (r: Vec<Vec<usize>>)
    requires
        firsts@ == first_positions(flat@),
        forall|k: int| 0 <= k < firsts.len() ==> #[trigger] firsts@[k] < flat.len(),
    ensures
        r.deep_view() == rel_fp(*rel, flat@),
{
    let its = crate::engines::terms::index_tuple_list(firsts.len(), rel.arity);
    let ghost iv = its.deep_view();
    let ghost pts = position_tuples(firsts@, rel.arity as nat);
    proof {
        crate::engines::terms::lemma_index_tuples(firsts.len(), rel.arity as nat);
    }
    let mut out: Vec<Vec<usize>> = Vec::new();
    let mut a: usize = 0;
    proof {
        assert(pts.take(0) =~= Seq::<Seq<usize>>::empty());
        assert(out.deep_view() =~= held(*rel, flat@, pts.take(0)));
    }
    while a < its.len()
        invariant
            a <= its.len(),
            iv == its.deep_view(),
            iv == crate::engines::terms::index_tuples(firsts.len(), rel.arity as nat),
            pts == position_tuples(firsts@, rel.arity as nat),
            forall|k: int| 0 <= k < firsts.len() ==> #[trigger] firsts@[k] < flat.len(),
            forall|t: int| 0 <= t < iv.len() ==> (#[trigger] iv[t]).len() == rel.arity && forall|x: int|
                0 <= x < rel.arity ==> iv[t][x] < firsts.len(),
            out.deep_view() == held(*rel, flat@, pts.take(a as int)),
        decreases its.len() - a,
    {
        let it = &its[a];
        proof {
            assert(iv[a as int] == it@);
        }
        let mut t: Vec<usize> = Vec::new();
        let mut args: Vec<i64> = Vec::new();
        let mut x: usize = 0;
        while x < it.len()
            invariant
                x <= it.len(),
                it@ == iv[a as int],
                a < iv.len(),
                forall|k: int| 0 <= k < firsts.len() ==> #[trigger] firsts@[k] < flat.len(),
                forall|y: int| 0 <= y < it.len() ==> #[trigger] it@[y] < firsts.len(),
                t@ == it@.take(x as int).map_values(|i: usize| firsts@[i as int]),
                args@ == at_positions(flat@, t@),
            decreases it.len() - x,
        {
            let pos = firsts[it[x]];
            t.push(pos);
            args.push(flat[pos]);
            x += 1;
            proof {
                assert(t@ =~= it@.take(x as int).map_values(|i: usize| firsts@[i as int]));
                assert(args@ =~= at_positions(flat@, t@));
            }
        }
        proof {
            assert(it@.take(it.len() as int) =~= it@);
            assert(pts[a as int] == t@);
            assert(pts.take(a + 1).drop_last() =~= pts.take(a as int));
            assert(pts.take(a + 1).last() == t@);
        }
        if rel.contains(args.as_slice()) {
            let ghost before = out.deep_view();
            proof {
                assert(t.deep_view() =~= t@);
            }
            out.push(t);
            proof {
                assert(out.deep_view() =~= before.push(pts[a as int]));
            }
        }
        a += 1;
    }
    proof {
        assert(pts.take(its.len() as int) =~= pts);
    }
    out
}


/// The fingerprints of all relations on the generated elements.
fn relation_fps_exec(model: &Model, flat: &Vec<i64>) -> (r: Vec<Vec<Vec<usize>>>)
    requires
        model.wf(),
    ensures
        r.deep_view() == relation_fps(model.relations@, flat@),
{
    let ghost rels = model.relations@;
    let rgs = rel_groups(&model.relations);
    let ghost gv = groups_view(rgs@);
    proof {
        assert(is_rel_groups(tmh_rel_groups(rels), rels));
        assert forall|g: (Seq<char>, nat)| #[trigger] gv.contains(g) <==> tmh_rel_groups(rels).contains(g) by {
            assert(gv.contains(g) == tmh_rel_groups(rels).contains(g));
        }
        lemma_groups_unique(gv, tmh_rel_groups(rels));
    }
    let firsts = first_positions_exec(flat);
    let mut out: Vec<Vec<Vec<usize>>> = Vec::new();
    let mut g: usize = 0;
    let ghost f = |g: (Seq<char>, nat)| rel_fp(rel_named(rels, g.0), flat@);
    proof {
        assert(out.deep_view() =~= gv.take(0).map_values(f));
    }
    while g < rgs.len()
        invariant
            g <= rgs.len(),
            model.wf(),
            rels == model.relations@,
            gv == groups_view(rgs@),
            is_rel_groups(gv, rels),
            firsts@ == first_positions(flat@),
            forall|k: int| 0 <= k < firsts.len() ==> #[trigger] firsts@[k] < flat.len(),
            f == |g: (Seq<char>, nat)| rel_fp(rel_named(rels, g.0), flat@),
            out.deep_view() == gv.take(g as int).map_values(f),
        decreases rgs.len() - g,
    {
        proof {
            assert(gv[g as int] == (rgs@[g as int].0@, rgs@[g as int].1 as nat));
            assert(gv.contains(gv[g as int]));
        }
        let mut ri: usize = 0;
        while ri < model.relations.len() && !crate::engines::dispatch::str_eq(
            model.relations[ri].sym.as_str(),
            rgs[g].0.as_str(),
        )
            invariant
                ri <= model.relations.len(),
                g < rgs.len(),
                rels == model.relations@,
                forall|j: int| 0 <= j < ri ==> (#[trigger] rels[j]).sym@ != rgs@[g as int].0@,
            decreases model.relations.len() - ri,
        {
            ri += 1;
        }
        proof {
            let w = choose|i: int| 0 <= i < rels.len() && gv[g as int] == (#[trigger] rels[i].sym@, rels[i].arity as nat);
            if ri == model.relations.len() {
                assert(rels[w].sym@ == rgs@[g as int].0@);
                assert(false);
            }
            let c = choose|i: int| 0 <= i < rels.len() && rels[i].sym@ == rgs@[g as int].0@;
            if c != ri {
                if c < ri {
                    assert(rels[c].sym@ != rels[ri as int].sym@);
                } else {
                    assert(rels[ri as int].sym@ != rels[c].sym@);
                }
            }
            assert(rel_named(rels, gv[g as int].0) == rels[ri as int]);
        }
        let fp = rel_fp_exec(&model.relations[ri], flat, &firsts);
        let ghost before = out.deep_view();
        out.push(fp);
        proof {
            assert(out.deep_view() =~= before.push(f(gv[g as int])));
            assert(gv.take(g + 1) =~= gv.take(g as int).push(gv[g as int]));
        }
        g += 1;
    }
    proof {
        assert(gv.take(rgs.len() as int) =~= gv);
    }
    out
}

impl TupleModelHash {
    /// The type of `generator_tuple` in the model, or `None` when an
    /// application of an operation during generation is undefined or the
    /// numbering does not fit in `usize`.
    pub fn try_compute(model: &Model, generator_tuple: &[i64]) -> (r: Option<Self>)
        requires
            model.wf(),
        ensures
            match r {
                Some(h) => tmh_defined(*model, generator_tuple@) && tmh_fits(*model, generator_tuple@) && is_tmh_of(
                    h,
                    *model,
                    generator_tuple@,
                ),
                None => !(tmh_defined(*model, generator_tuple@) && tmh_fits(*model, generator_tuple@)),
            },
    {
        let ghost gens = generator_tuple@;
        let ghost ops = model.operations@;
        let groups = op_groups(&model.operations, 1);
        let ghost gs = tmh_op_groups(ops);
        proof {
            assert(is_op_groups(groups_view(groups@), ops));
            lemma_op_groups_unique(groups_view(groups@), gs, ops, 1);
        }
        let ghost cands = gens + table_vals(ops);
        let ghost run = tmh_run(*model, gens);
        let gens_vec = copy_tuple(generator_tuple);
        let mut layers: Vec<Vec<i64>> = Vec::new();
        layers.push(gens_vec);
        let mut events: Vec<Option<i64>> = Vec::new();
        proof {
            crate::util::lemma_tuple_deep_view(layers@[0]);
            assert(layers.deep_view()[0] == gens);
            assert(layers.deep_view() =~= seq![gens]);
            assert(events@ + closure(ops, gs, cands, layers.deep_view()).1 =~= closure(ops, gs, cands, layers.deep_view()).1);
        }
        loop
            invariant
                model.wf(),
                ops == model.operations@,
                gs == groups_view(groups@),
                gs == tmh_op_groups(ops),
                gens == generator_tuple@,
                cands == gens + table_vals(ops),
                run == tmh_run(*model, gens),
                run == closure(ops, gs, cands, seq![gens]),
                layers.len() >= 1,
                run.0 == closure(ops, gs, cands, layers.deep_view()).0,
                run.1 == events@ + closure(ops, gs, cands, layers.deep_view()).1,
            ensures
                run.0 == layers.deep_view(),
                run.1 == events@,
            decreases missing(cands, flatten(layers.deep_view())),
        {
            let ghost lv = layers.deep_view();
            let last = layers.len() - 1;
            proof {
                assert(lv.last() == layers@[last as int]@);
            }
            if layers[last].len() == 0 {
                proof {
                    assert(events@ + Seq::<Option<i64>>::empty() =~= events@);
                }
                break;
            }
            let flath = flatten_layers(&layers);
            let o = copy_tuple(layers[last].as_slice());
            let ev = round_events(model, &groups, &flath, &o);
            proof {
                lemma_group_events_vals(ops, gs, flath@, o@);
                lemma_somes_in(ev@, table_vals(ops));
                lemma_fresh(somes(ev@), flath@);
            }
            let next = match fresh_values(&ev, &flath) {
                Some(n) => n,
                None => {
                    proof {
                        let k = choose|k: int| 0 <= k < ev.len() && #[trigger] ev@[k] is None;
                        assert(flatten(lv) == flath@);
                        assert(lv.last() == o@);
                        assert(group_events(ops, gs, flatten(lv), lv.last()) == ev@);
                        let rest = closure(ops, gs, cands, lv).1;
                        assert(rest.take(ev@.len() as int) =~= ev@);
                        assert(rest[k] == ev@[k]);
                        assert(run.1[events@.len() + k] == ev@[k]);
                        assert(tmh_run(*model, gens).1[events@.len() + k] is None);
                    }
                    return None;
                },
            };
            proof {
                assert forall|k: int| 0 <= k < next@.len() implies cands.contains(#[trigger] next@[k]) by {
                    let x = next@[k];
                    let sm = somes(ev@);
                    let tv = table_vals(ops);
                    assert(sm.contains(x));
                    let w = choose|w: int| 0 <= w < sm.len() && sm[w] == x;
                    assert(tv.contains(sm[w]));
                    let v = choose|v: int| 0 <= v < tv.len() && tv[v] == x;
                    assert(cands[gens.len() + v] == tv[v]);
                }
                assert(all_in(next@, cands));
            }
            let ghost before = events@;
            let mut e: usize = 0;
            while e < ev.len()
                invariant
                    e <= ev.len(),
                    events@ == before + ev@.take(e as int),
                decreases ev.len() - e,
            {
                events.push(ev[e]);
                e += 1;
                proof {
                    assert(events@ =~= before + ev@.take(e as int));
                }
            }
            proof {
                assert(ev@.take(ev.len() as int) =~= ev@);
            }
            let ghost nv = next@;
            let done = next.len() == 0;
            proof {
                crate::util::lemma_tuple_deep_view(next);
            }
            layers.push(next);
            proof {
                assert(layers.deep_view() =~= lv.push(nv));
                assert(lv.push(nv).drop_last() =~= lv);
                assert(flatten(lv.push(nv)) == flath@ + nv);
            }
            if done {
                break;
            }
            proof {
                assert forall|y: i64| flath@.contains(y) implies (flath@ + nv).contains(y) by {
                    let k = choose|k: int| 0 <= k < flath@.len() && flath@[k] == y;
                    assert((flath@ + nv)[k] == y);
                }
                assert((flath@ + nv)[flath@.len() as int] == nv[0]);
                lemma_missing(cands, flath@, flath@ + nv, nv[0]);
                assert((before + ev@) + closure(ops, gs, cands, lv.push(nv)).1 =~= before + (ev@ + closure(
                    ops,
                    gs,
                    cands,
                    lv.push(nv),
                ).1));
            }
        }
        let ghost fl = layers.deep_view();
        if events.len() >= usize::MAX - generator_tuple.len() {
            return None;
        }
        let mut ok = true;
        let mut k: usize = 0;
        while k < events.len()
            invariant
                k <= events.len(),
                ok == forall|j: int| 0 <= j < k ==> #[trigger] events@[j] is Some,
            decreases events.len() - k,
        {
            if events[k].is_none() {
                ok = false;
            }
            k += 1;
        }
        if !ok {
            return None;
        }
        layers.pop();
        proof {
            assert(layers.deep_view() =~= fl.drop_last());
        }
        let flat = flatten_layers(&layers);
        let distinct = distinct_values(&flat);
        let gens_copy = copy_tuple(generator_tuple);
        let mut sets: Vec<Vec<usize>> = Vec::new();
        let mut d: usize = 0;
        let ghost fx = |x: i64| index_set(gens, events@, x);
        proof {
            assert(sets.deep_view() =~= distinct@.take(0).map_values(fx));
        }
        while d < distinct.len()
            invariant
                d <= distinct.len(),
                gens_copy@ == gens,
                gens.len() + events.len() < usize::MAX,
                fx == |x: i64| index_set(gens, events@, x),
                sets.deep_view() == distinct@.take(d as int).map_values(fx),
            decreases distinct.len() - d,
        {
            let is = index_set_exec(&gens_copy, &events, distinct[d]);
            let ghost before = sets.deep_view();
            proof {
                assert(is.deep_view() =~= is@);
            }
            sets.push(is);
            proof {
                assert(sets.deep_view() =~= before.push(fx(distinct@[d as int])));
                assert(distinct@.take(d + 1) =~= distinct@.take(d as int).push(distinct@[d as int]));
            }
            d += 1;
        }
        proof {
            assert(distinct@.take(distinct.len() as int) =~= distinct@);
        }
        let fps = relation_fps_exec(model, &flat);
        Some(TupleModelHash { generator_tuple: gens_copy, flat_h: flat, type_index_sets: sets, relations_fp: fps })
    }

    /// The type of `generator_tuple` in the model.
    pub fn compute(model: &Model, generator_tuple: &[i64]) -> (r: Self)
        requires
            model.wf(),
            tmh_defined(*model, generator_tuple@),
            tmh_fits(*model, generator_tuple@),
        ensures
            is_tmh_of(r, *model, generator_tuple@),
    {
        match Self::try_compute(model, generator_tuple) {
            Some(h) => h,
            None => {
                proof {
                    assert(false);
                }
                TupleModelHash {
                    generator_tuple: Vec::new(),
                    flat_h: Vec::new(),
                    type_index_sets: Vec::new(),
                    relations_fp: Vec::new(),
                }
            },
        }
    }
}


/// A fresh copy of a list of index lists.
fn copy_sets(v: &Vec<Vec<usize>>) -> (r: Vec<Vec<usize>>)
    ensures
        r.deep_view() == v.deep_view(),
{
    let mut out: Vec<Vec<usize>> = Vec::new();
    let mut i: usize = 0;
    while i < v.len()
        invariant
            i <= v.len(),
            out.deep_view() == v.deep_view().take(i as int),
        decreases v.len() - i,
    {
        let c = crate::preprocessing::copy_idx(&v[i]);
        let ghost before = out.deep_view();
        out.push(c);
        proof {
            assert(out.deep_view() =~= before.push(v@[i as int]@));
            assert(v.deep_view().take(i + 1) =~= v.deep_view().take(i as int).push(v.deep_view()[i as int]));
        }
        i += 1;
    }
    proof {
        assert(v.deep_view().take(v.len() as int) =~= v.deep_view());
    }
    out
}

/// A fresh copy of the relation fingerprints.
fn copy_fps(v: &Vec<Vec<Vec<usize>>>) -> (r: Vec<Vec<Vec<usize>>>)
    ensures
        r.deep_view() == v.deep_view(),
{
    let mut out: Vec<Vec<Vec<usize>>> = Vec::new();
    let mut i: usize = 0;
    while i < v.len()
        invariant
            i <= v.len(),
            out.deep_view() == v.deep_view().take(i as int),
        decreases v.len() - i,
    {
        let c = copy_sets(&v[i]);
        let ghost before = out.deep_view();
        out.push(c);
        proof {
            assert(out.deep_view() =~= before.push(v.deep_view()[i as int]));
            assert(v.deep_view().take(i + 1) =~= v.deep_view().take(i as int).push(v.deep_view()[i as int]));
        }
        i += 1;
    }
    proof {
        assert(v.deep_view().take(v.len() as int) =~= v.deep_view());
    }
    out
}

/// Equal index lists.
fn idx_eq(a: &Vec<usize>, b: &Vec<usize>) -> (r: bool)
    ensures
        r == (a@ == b@),
{
    if a.len() != b.len() {
        return false;
    }
    let mut i: usize = 0;
    while i < a.len()
        invariant
            i <= a.len(),
            a.len() == b.len(),
            forall|k: int| 0 <= k < i ==> a@[k] == b@[k],
        decreases a.len() - i,
    {
        if a[i] != b[i] {
            return false;
        }
        i += 1;
    }
    proof {
        assert(a@ =~= b@);
    }
    true
}

/// Equal lists of index lists.
fn sets_eq(a: &Vec<Vec<usize>>, b: &Vec<Vec<usize>>) -> (r: bool)
    ensures
        r == (a.deep_view() == b.deep_view()),
{
    if a.len() != b.len() {
        proof {
            assert(a.deep_view().len() != b.deep_view().len());
        }
        return false;
    }
    let mut i: usize = 0;
    while i < a.len()
        invariant
            i <= a.len(),
            a.len() == b.len(),
            forall|k: int| 0 <= k < i ==> a.deep_view()[k] == b.deep_view()[k],
        decreases a.len() - i,
    {
        proof {
            assert(a.deep_view()[i as int] =~= a@[i as int]@);
            assert(b.deep_view()[i as int] =~= b@[i as int]@);
        }
        if !idx_eq(&a[i], &b[i]) {
            return false;
        }
        i += 1;
    }
    proof {
        assert(a.deep_view() =~= b.deep_view());
    }
    true
}

/// Equal relation fingerprints.
fn fps_eq(a: &Vec<Vec<Vec<usize>>>, b: &Vec<Vec<Vec<usize>>>) -> (r: bool)
    ensures
        r == (a.deep_view() == b.deep_view()),
{
    if a.len() != b.len() {
        proof {
            assert(a.deep_view().len() != b.deep_view().len());
        }
        return false;
    }
    let mut i: usize = 0;
    while i < a.len()
        invariant
            i <= a.len(),
            a.len() == b.len(),
            forall|k: int| 0 <= k < i ==> a.deep_view()[k] == b.deep_view()[k],
        decreases a.len() - i,
    {
        if !sets_eq(&a[i], &b[i]) {
            proof {
                assert(a.deep_view()[i as int] != b.deep_view()[i as int]);
            }
            return false;
        }
        i += 1;
    }
    proof {
        assert(a.deep_view() =~= b.deep_view());
    }
    true
}

/// Two types are the same: equal index sets and equal relation fingerprints.
pub open spec fn same_type_spec(a: TupleModelHash, b: TupleModelHash) -> bool {
    a.type_index_sets.deep_view() == b.type_index_sets.deep_view() && a.relations_fp.deep_view()
        == b.relations_fp.deep_view()
}

impl TupleModelHash {
    /// The type alone.
    pub fn to_compact(&self) -> (r: CompactIsoType)
        ensures
            r.type_index_sets.deep_view() == self.type_index_sets.deep_view(),
            r.relations_fp.deep_view() == self.relations_fp.deep_view(),
    {
        CompactIsoType {
            type_index_sets: copy_sets(&self.type_index_sets),
            relations_fp: copy_fps(&self.relations_fp),
        }
    }

    /// The type alone of `generator_tuple` in the model.
    pub fn compute_compact(model: &Model, generator_tuple: &[i64]) -> (r: CompactIsoType)
        requires
            model.wf(),
            tmh_defined(*model, generator_tuple@),
            tmh_fits(*model, generator_tuple@),
        ensures
            r.type_index_sets.deep_view() == type_sets(
                generator_tuple@,
                tmh_run(*model, generator_tuple@).1,
                tmh_flat(*model, generator_tuple@),
            ),
            r.relations_fp.deep_view() == relation_fps(model.relations@, tmh_flat(*model, generator_tuple@)),
    {
        Self::compute(model, generator_tuple).to_compact()
    }

    /// The distinct generated elements, in order of first appearance.
    pub fn universe(&self) -> (r: Vec<i64>)
        ensures
            r@ == fresh(self.flat_h@, Seq::empty()),
    {
        distinct_values(&self.flat_h)
    }

    /// The two are the same type.
    pub fn same_type(&self, other: &Self) -> (r: bool)
        ensures
            r == same_type_spec(*self, *other),
            r <==> (self.type_index_sets.deep_view() == other.type_index_sets.deep_view()
                && self.relations_fp.deep_view() == other.relations_fp.deep_view()),
    {
        sets_eq(&self.type_index_sets, &other.type_index_sets) && fps_eq(&self.relations_fp, &other.relations_fp)
    }

    /// The map of generated elements position by position, when the two are
    /// the same type with as many generated elements.
    pub fn iso_map(&self, other: &Self) -> (r: Option<Vec<(i64, i64)>>)
        ensures
            match r {
                Some(m) => same_type_spec(*self, *other) && self.flat_h.len() == other.flat_h.len() && m.len()
                    == self.flat_h.len() && forall|i: int|
                    0 <= i < m.len() ==> #[trigger] m@[i] == (self.flat_h@[i], other.flat_h@[i]),
                None => !(same_type_spec(*self, *other) && self.flat_h.len() == other.flat_h.len()),
            },
    {
        if !self.same_type(other) || self.flat_h.len() != other.flat_h.len() {
            return None;
        }
        let mut m: Vec<(i64, i64)> = Vec::new();
        let mut i: usize = 0;
        while i < self.flat_h.len()
            invariant
                i <= self.flat_h.len(),
                self.flat_h.len() == other.flat_h.len(),
                m.len() == i,
                forall|k: int| 0 <= k < i ==> #[trigger] m@[k] == (self.flat_h@[k], other.flat_h@[k]),
            decreases self.flat_h.len() - i,
        {
            m.push((self.flat_h[i], other.flat_h[i]));
            i += 1;
        }
        Some(m)
    }

    /// The index sets.
    pub fn type_index_sets_for_test(&self) -> (r: &Vec<Vec<usize>>)
        ensures
            r == &self.type_index_sets,
    {
        &self.type_index_sets
    }

    /// The relation fingerprints.
    pub fn relations_fp_for_test(&self) -> (r: &Vec<Vec<Vec<usize>>>)
        ensures
            r == &self.relations_fp,
    {
        &self.relations_fp
    }
}


/// Being of the same type is an equivalence: reflexive, symmetric and transitive.
pub proof fn law_same_type_equivalence(a: TupleModelHash, b: TupleModelHash, c: TupleModelHash)
    ensures
        same_type_spec(a, a),
        same_type_spec(a, b) ==> same_type_spec(b, a),
        same_type_spec(a, b) && same_type_spec(b, c) ==> same_type_spec(a, c),
{
}

/// The type of a tuple is determined by the model and the tuple: two results
/// for the same tuple have the same generated elements and the same type.
pub proof fn law_tmh_deterministic(model: Model, gens: Seq<i64>, h1: TupleModelHash, h2: TupleModelHash)
    requires
        is_tmh_of(h1, model, gens),
        is_tmh_of(h2, model, gens),
    ensures
        h1.flat_h@ == h2.flat_h@,
        same_type_spec(h1, h2),
{
}

/// The generated elements begin with the generators.
pub proof fn law_tmh_generators_first(model: Model, gens: Seq<i64>)
    requires
        gens.len() > 0,
    ensures
        tmh_flat(model, gens).take(gens.len() as int) == gens,
{
    let ops = model.operations@;
    let gs = tmh_op_groups(ops);
    let cands = gens + table_vals(ops);
    lemma_closure_prefix(ops, gs, cands, seq![gens]);
    let l = closure(ops, gs, cands, seq![gens]).0;
    assert(l.len() >= 1);
    lemma_flatten_prefix(l, gens);
}

proof fn lemma_closure_prefix(ops: Seq<Operation>, gs: Seq<(Seq<char>, nat)>, cands: Seq<i64>, layers: Seq<Seq<i64>>)
    requires
        layers.len() >= 1,
    ensures
        closure(ops, gs, cands, layers).0.len() >= layers.len(),
        closure(ops, gs, cands, layers).0.take(layers.len() as int) == layers,
        closure(ops, gs, cands, layers).0.len() > layers.len() || closure(ops, gs, cands, layers).0 == layers,
        layers.last().len() > 0 ==> closure(ops, gs, cands, layers).0.len() > layers.len(),
    decreases missing(cands, flatten(layers)),
{
    if layers.last().len() == 0 {
    } else {
        let flath = flatten(layers);
        let ev = group_events(ops, gs, flath, layers.last());
        let next = fresh(somes(ev), flath);
        let nl = layers.push(next);
        if next.len() == 0 || !all_in(next, cands) || flath.contains(next[0]) {
            assert(nl.take(layers.len() as int) =~= layers);
        } else {
            assert(nl.drop_last() =~= layers);
            assert(flatten(nl) == flath + next);
            assert forall|y: i64| flath.contains(y) implies (flath + next).contains(y) by {
                let k = choose|k: int| 0 <= k < flath.len() && flath[k] == y;
                assert((flath + next)[k] == y);
            }
            assert((flath + next)[flath.len() as int] == next[0]);
            lemma_missing(cands, flath, flath + next, next[0]);
            lemma_closure_prefix(ops, gs, cands, nl);
            let r = closure(ops, gs, cands, nl).0;
            assert(r.take(layers.len() as int) =~= r.take(nl.len() as int).take(layers.len() as int));
            assert(nl.take(layers.len() as int) =~= layers);
        }
    }
}

proof fn lemma_flatten_prefix(l: Seq<Seq<i64>>, first: Seq<i64>)
    requires
        l.len() >= 1,
        l[0] == first,
    ensures
        l.len() >= 2 ==> flatten(l.drop_last()).take(first.len() as int) == first,
    decreases l.len(),
{
    if l.len() >= 3 {
        let d = l.drop_last();
        lemma_flatten_prefix(d, first);
        lemma_flatten_len_ge(d.drop_last(), first);
        assert(flatten(d) == flatten(d.drop_last()) + d.last());
        assert(flatten(d).take(first.len() as int) =~= flatten(d.drop_last()).take(first.len() as int));
    } else if l.len() == 2 {
        let d = l.drop_last();
        assert(d.drop_last() =~= Seq::<Seq<i64>>::empty());
        assert(flatten(d) == flatten(d.drop_last()) + d.last());
        assert(flatten(d) =~= first);
        assert(flatten(d).take(first.len() as int) =~= first);
    }
}

proof fn lemma_flatten_len_ge(l: Seq<Seq<i64>>, first: Seq<i64>)
    requires
        l.len() >= 1,
        l[0] == first,
    ensures
        flatten(l).len() >= first.len(),
    decreases l.len(),
{
    if l.len() > 1 {
        lemma_flatten_len_ge(l.drop_last(), first);
    } else {
        assert(l.drop_last() =~= Seq::<Seq<i64>>::empty());
    }
}

/// Law: two compact types are the same exactly when both their index sets and their
/// relation fingerprints are equal; a difference in either tells them apart.
pub proof fn law_compact_same_is_equality(a: CompactIsoType, b: CompactIsoType)
    ensures
        compact_same(a, b) ==> a.relations_fp.deep_view() == b.relations_fp.deep_view(),
        compact_same(a, b) ==> a.type_index_sets.deep_view() == b.type_index_sets.deep_view(),
        a.type_index_sets.deep_view() == b.type_index_sets.deep_view() && a.relations_fp.deep_view()
            == b.relations_fp.deep_view() ==> compact_same(a, b),
{
}

/// Law: two computed types are the same type exactly when both their index sets and
/// their relation fingerprints are equal.
pub proof fn law_same_type_is_equality(a: TupleModelHash, b: TupleModelHash)
    ensures
        same_type_spec(a, b) <==> (a.type_index_sets.deep_view() == b.type_index_sets.deep_view()
            && a.relations_fp.deep_view() == b.relations_fp.deep_view()),
{
}


} // verus!
