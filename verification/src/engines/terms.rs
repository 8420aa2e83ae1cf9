//! Layered term generation over an operational signature, as read by the
//! atomic positive-primitive type of a tuple: each generated term is kept by its
//! sort key, its depth and its value on the tuple.

use vstd::prelude::*;

use crate::first_order::formulas::{first_op, lemma_first_op, ops_wf};
use crate::first_order::relops::{find_operation, Operation};
use crate::preprocessing::copy_idx;
use crate::strs::{
    int_text, lemma_seq_lt_irrefl, lemma_seq_lt_total, lemma_seq_lt_trans, push_char, push_str, push_usize, seq_lt,
    str_lt,
};

verus! {

/// A generated term: its sort key, its depth and its value.
pub type TermRec = (Seq<char>, nat, i64);

/// Sort key of the `i`-th variable: `v` and the index in decimal.
pub open spec fn var_key(i: nat) -> Seq<char> {
    seq!['v'] + int_text(i as int)
}

/// Keys joined by commas.
pub open spec fn join_keys(ks: Seq<Seq<char>>) -> Seq<char>
    decreases ks.len(),
{
    if ks.len() == 0 {
        Seq::empty()
    } else if ks.len() == 1 {
        ks[0]
    } else {
        join_keys(ks.drop_last()) + seq![','] + ks.last()
    }
}

/// Largest depth among some terms (0 for none).
pub open spec fn max_depth_of(rs: Seq<TermRec>) -> nat
    decreases rs.len(),
{
    if rs.len() == 0 {
        0
    } else {
        let m = max_depth_of(rs.drop_last());
        if rs.last().1 > m {
            rs.last().1
        } else {
            m
        }
    }
}

/// Value of the operation named `sym` on `vals`; `-1` when there is no such
/// operation or the value is undefined.
pub open spec fn apply_value(ops: Seq<Operation>, sym: Seq<char>, vals: Seq<i64>) -> i64 {
    match first_op(ops, sym) {
        Some(op) => match op.spec_call(vals) {
            Some(v) => v,
            None => -1i64,
        },
        None => -1i64,
    }
}

/// The term `sym(args..)`.
pub open spec fn op_rec(ops: Seq<Operation>, sym: Seq<char>, args: Seq<TermRec>) -> TermRec {
    (
        sym + seq!['('] + join_keys(args.map_values(|r: TermRec| r.0)) + seq![')'],
        1 + max_depth_of(args),
        apply_value(ops, sym, args.map_values(|r: TermRec| r.2)),
    )
}

/// Each of `rs` extended by every index below `n`, in order.
pub open spec fn extend_all(rs: Seq<Seq<usize>>, n: usize) -> Seq<Seq<usize>>
    decreases rs.len(),
{
    if rs.len() == 0 {
        Seq::empty()
    } else {
        extend_all(rs.drop_last(), n) + Seq::new(n as nat, |j: int| rs.last().push(j as usize))
    }
}

/// All `k`-tuples of indices below `n`, the first coordinate varying slowest.
pub open spec fn index_tuples(n: usize, k: nat) -> Seq<Seq<usize>>
    decreases k,
{
    if k == 0 {
        seq![Seq::empty()]
    } else {
        extend_all(index_tuples(n, (k - 1) as nat), n)
    }
}

/// The terms `sym(args..)` for all argument tuples over `ts`.
pub open spec fn group_terms(ts: Seq<TermRec>, ops: Seq<Operation>, g: (Seq<char>, nat)) -> Seq<TermRec> {
    index_tuples(ts.len() as usize, g.1).map_values(
        |it: Seq<usize>| op_rec(ops, g.0, it.map_values(|i: usize| ts[i as int])),
    )
}

/// One layer of new terms: every operation group applied over `ts`, in group order.
pub open spec fn grow(ts: Seq<TermRec>, ops: Seq<Operation>, gs: Seq<(Seq<char>, nat)>) -> Seq<TermRec>
    decreases gs.len(),
{
    if gs.len() == 0 {
        Seq::empty()
    } else {
        grow(ts, ops, gs.drop_last()) + group_terms(ts, ops, gs.last())
    }
}

/// The variables of a tuple as terms.
pub open spec fn var_recs(row: Seq<i64>) -> Seq<TermRec> {
    Seq::new(row.len(), |i: int| (var_key(i as nat), 0nat, row[i]))
}

/// The terms after `n` layers of growth.
pub open spec fn pp_terms(gs: Seq<(Seq<char>, nat)>, ops: Seq<Operation>, row: Seq<i64>, n: nat) -> Seq<TermRec>
    decreases n,
{
    if n == 0 {
        var_recs(row)
    } else {
        let ts = pp_terms(gs, ops, row, (n - 1) as nat);
        ts + grow(ts, ops, gs)
    }
}

/// Keys and values of the terms of depth `d`, in order.
pub open spec fn level(ts: Seq<TermRec>, d: nat) -> Seq<(Seq<char>, i64)>
    decreases ts.len(),
{
    if ts.len() == 0 {
        Seq::empty()
    } else {
        let l = level(ts.drop_last(), d);
        if ts.last().1 == d {
            l.push((ts.last().0, ts.last().2))
        } else {
            l
        }
    }
}

/// Order of operation groups: by arity, then by name.
pub open spec fn group_lt(a: (Seq<char>, nat), b: (Seq<char>, nat)) -> bool {
    a.1 < b.1 || (a.1 == b.1 && seq_lt(a.0, b.0))
}

/// `gs` lists the operations of arity at least `min`, as `(name, arity)`, in group order.
pub open spec fn is_op_groups_min(gs: Seq<(Seq<char>, nat)>, ops: Seq<Operation>, min: nat) -> bool {
    &&& forall|i: int, j: int| 0 <= i < j < gs.len() ==> group_lt(#[trigger] gs[i], #[trigger] gs[j])
    &&& forall|g: (Seq<char>, nat)|
        #[trigger] gs.contains(g) <==> exists|i: int|
            0 <= i < ops.len() && ops[i].arity >= min && g == (#[trigger] ops[i].sym@, ops[i].arity as nat)
}

/// `gs` lists the operations of positive arity, as `(name, arity)`, in group order.
pub open spec fn is_op_groups(gs: Seq<(Seq<char>, nat)>, ops: Seq<Operation>) -> bool {
    is_op_groups_min(gs, ops, 1)
}

/// Concatenated values of the levels.
pub open spec fn level_values(lv: Seq<Seq<(Seq<char>, i64)>>) -> Seq<i64>
    decreases lv.len(),
{
    if lv.len() == 0 {
        Seq::empty()
    } else {
        level_values(lv.drop_last()) + lv.last().map_values(|p: (Seq<char>, i64)| p.1)
    }
}

/// The atomic signature for operation groups `gs`: level by level up to
/// `max_depth`, the values of the terms of that depth stably sorted by key.
pub open spec fn pp_signature(
    gs: Seq<(Seq<char>, nat)>,
    ops: Seq<Operation>,
    row: Seq<i64>,
    max_depth: nat,
) -> Seq<i64> {
    level_values(
        Seq::new(max_depth + 1, |d: int| sort_pairs(level(pp_terms(gs, ops, row, d as nat), d as nat))),
    )
}

/// The atomic positive-primitive type of `row` over the operations `ops`.
pub open spec fn pp_type(ops: Seq<Operation>, row: Seq<i64>, max_depth: nat) -> Seq<i64> {
    pp_signature(choose|gs: Seq<(Seq<char>, nat)>| is_op_groups(gs, ops), ops, row, max_depth)
}

/// Mathematical view of a generated term.
pub open spec fn rec_view(r: (String, usize, i64)) -> TermRec {
    (r.0@, r.1 as nat, r.2)
}

/// Mathematical view of a list of generated terms.
pub open spec fn recs_view(s: Seq<(String, usize, i64)>) -> Seq<TermRec> {
    s.map_values(|r: (String, usize, i64)| rec_view(r))
}

/// View of a list of `(name, arity)` groups.
pub open spec fn groups_view(s: Seq<(String, usize)>) -> Seq<(Seq<char>, nat)> {
    s.map_values(|g: (String, usize)| (g.0@, g.1 as nat))
}

/// View of a list of `(key, value)` pairs.
pub open spec fn pairs_view(s: Seq<(String, i64)>) -> Seq<(Seq<char>, i64)> {
    s.map_values(|p: (String, i64)| (p.0@, p.1))
}

/// Every index tuple has length `k` and indices below `n`.
pub proof fn lemma_index_tuples(n: usize, k: nat)
    ensures
        forall|t: int| 0 <= t < index_tuples(n, k).len() ==> (#[trigger] index_tuples(n, k)[t]).len() == k
            && forall|x: int| 0 <= x < k ==> index_tuples(n, k)[t][x] < n,
    decreases k,
{
    if k > 0 {
        lemma_index_tuples(n, (k - 1) as nat);
        lemma_extend_all(index_tuples(n, (k - 1) as nat), n, (k - 1) as nat);
    }
}

proof fn lemma_extend_all(rs: Seq<Seq<usize>>, n: usize, k: nat)
    requires
        forall|t: int| 0 <= t < rs.len() ==> (#[trigger] rs[t]).len() == k && forall|x: int| 0 <= x < k ==> rs[t][x] < n,
    ensures
        forall|t: int| 0 <= t < extend_all(rs, n).len() ==> (#[trigger] extend_all(rs, n)[t]).len() == k + 1
            && forall|x: int| 0 <= x < k + 1 ==> extend_all(rs, n)[t][x] < n,
    decreases rs.len(),
{
    if rs.len() > 0 {
        lemma_extend_all(rs.drop_last(), n, k);
        let a = extend_all(rs.drop_last(), n);
        let b = Seq::new(n as nat, |j: int| rs.last().push(j as usize));
        assert forall|t: int| 0 <= t < extend_all(rs, n).len() implies (#[trigger] extend_all(rs, n)[t]).len() == k + 1
            && forall|x: int| 0 <= x < k + 1 ==> extend_all(rs, n)[t][x] < n by {
            if t < a.len() {
                assert(extend_all(rs, n)[t] == a[t]);
            } else {
                assert(extend_all(rs, n)[t] == b[t - a.len()]);
                assert(rs.last() == rs[rs.len() - 1]);
            }
        }
    }
}

/// All `k`-tuples of indices below `n`, the first coordinate varying slowest.
pub fn index_tuple_list(n: usize, k: usize) -> (r: Vec<Vec<usize>>)
    ensures
        r.deep_view() == index_tuples(n, k as nat),
{
    let mut result: Vec<Vec<usize>> = Vec::new();
    result.push(Vec::new());
    proof {
        assert(result.deep_view()[0] =~= Seq::<usize>::empty());
        assert(result.deep_view() =~= seq![Seq::<usize>::empty()]);
    }
    let mut step: usize = 0;
    while step < k
        invariant
            step <= k,
            result.deep_view() == index_tuples(n, step as nat),
        decreases k - step,
    {
        let mut next: Vec<Vec<usize>> = Vec::new();
        let mut a: usize = 0;
        proof {
            assert(result.deep_view().take(0) =~= Seq::<Seq<usize>>::empty());
            assert(next.deep_view() =~= Seq::<Seq<usize>>::empty());
        }
        while a < result.len()
            invariant
                a <= result.len(),
                next.deep_view() == extend_all(result.deep_view().take(a as int), n),
            decreases result.len() - a,
        {
            let mut j: usize = 0;
            let ghost base = next.deep_view();
            let ghost cur = result.deep_view()[a as int];
            proof {
                assert(base + Seq::new(0, |x: int| cur.push(x as usize)) =~= base);
            }
            while j < n
                invariant
                    j <= n,
                    a < result.len(),
                    cur == result.deep_view()[a as int],
                    next.deep_view() == base + Seq::new(j as nat, |x: int| cur.push(x as usize)),
                decreases n - j,
            {
                let mut row = copy_idx(&result[a]);
                row.push(j);
                let ghost before = next.deep_view();
                next.push(row);
                proof {
                    assert(row.deep_view() =~= cur.push(j));
                    assert(next.deep_view() =~= before.push(cur.push(j)));
                }
                j += 1;
                proof {
                    assert(next.deep_view() =~= base + Seq::new(j as nat, |x: int| cur.push(x as usize)));
                }
            }
            proof {
                let tk = result.deep_view().take(a + 1);
                assert(tk.drop_last() =~= result.deep_view().take(a as int));
                assert(tk.last() == cur);
            }
            a += 1;
        }
        proof {
            assert(result.deep_view().take(result.len() as int) =~= result.deep_view());
        }
        result = next;
        step += 1;
    }
    result
}

/// The variables of a tuple as generated terms.
pub fn var_records(row: &[i64]) -> (r: Vec<(String, usize, i64)>)
    ensures
        recs_view(r@) == var_recs(row@),
        forall|i: int| 0 <= i < r.len() ==> (#[trigger] r@[i]).1 == 0,
{
    let mut r: Vec<(String, usize, i64)> = Vec::new();
    let mut i: usize = 0;
    while i < row.len()
        invariant
            i <= row.len(),
            r.len() == i,
            recs_view(r@) == var_recs(row@).take(i as int),
            forall|k: int| 0 <= k < r.len() ==> (#[trigger] r@[k]).1 == 0,
        decreases row.len() - i,
    {
        let mut k = String::new();
        push_char(&mut k, 'v');
        push_usize(&mut k, i);
        proof {
            assert(k@ =~= var_key(i as nat));
        }
        let ghost before = r@;
        r.push((k, 0usize, row[i]));
        proof {
            assert(r@ == before.push((k, 0usize, row@[i as int])));
            assert(recs_view(r@)[i as int] == var_recs(row@)[i as int]);
            assert forall|x: int| 0 <= x < i implies #[trigger] recs_view(r@)[x] == var_recs(row@)[x] by {
                assert(r@[x] == before[x]);
                assert(recs_view(before)[x] == var_recs(row@).take(i as int)[x]);
            }
        }
        i += 1;
        proof {
            assert(recs_view(r@) =~= var_recs(row@).take(i as int));
        }
    }
    proof {
        assert(var_recs(row@).take(row.len() as int) =~= var_recs(row@));
    }
    r
}

proof fn lemma_args_step(args: Seq<TermRec>, j: int)
    requires
        0 <= j < args.len(),
    ensures
        ({
            let ks = args.take(j).map_values(|r: TermRec| r.0);
            let ks1 = args.take(j + 1).map_values(|r: TermRec| r.0);
            &&& join_keys(ks1) == if j == 0 {
                args[j].0
            } else {
                join_keys(ks) + seq![','] + args[j].0
            }
            &&& args.take(j + 1).map_values(|r: TermRec| r.2) == args.take(j).map_values(|r: TermRec| r.2).push(
                args[j].2,
            )
            &&& max_depth_of(args.take(j + 1)) == if args[j].1 > max_depth_of(args.take(j)) {
                args[j].1
            } else {
                max_depth_of(args.take(j))
            }
        }),
{
    let ks = args.take(j).map_values(|r: TermRec| r.0);
    let ks1 = args.take(j + 1).map_values(|r: TermRec| r.0);
    assert(args.take(j + 1).drop_last() =~= args.take(j));
    assert(ks1.drop_last() =~= ks);
    assert(ks1.last() == args[j].0);
    assert(args.take(j + 1).map_values(|r: TermRec| r.2) =~= args.take(j).map_values(|r: TermRec| r.2).push(
        args[j].2,
    ));
    assert(args.take(j + 1).last() == args[j]);
}

/// The term `sym(args..)` with arguments `ts[it[0]], ts[it[1]], ..`.
#[verifier::rlimit(30)]
pub fn make_op_rec(
    ops: &Vec<Operation>,
    sym: &String,
    ts: &Vec<(String, usize, i64)>,
    it: &Vec<usize>,
    bound: usize,
) -> (r: (String, usize, i64))
    requires
        ops_wf(ops@),
        bound < usize::MAX,
        forall|k: int| 0 <= k < it.len() ==> (#[trigger] it@[k]) < ts.len(),
        forall|k: int| 0 <= k < ts.len() ==> (#[trigger] ts@[k]).1 <= bound,
    ensures
        rec_view(r) == op_rec(ops@, sym@, it@.map_values(|i: usize| recs_view(ts@)[i as int])),
        r.1 <= bound + 1,
{
    let ghost args = it@.map_values(|i: usize| recs_view(ts@)[i as int]);
    let mut key = sym.clone();
    push_char(&mut key, '(');
    let mut vals: Vec<i64> = Vec::new();
    let mut maxd: usize = 0;
    let mut j: usize = 0;
    proof {
        assert(args.take(0) =~= Seq::<TermRec>::empty());
        assert(args.take(0).map_values(|r: TermRec| r.0) =~= Seq::<Seq<char>>::empty());
        assert(key@ =~= sym@ + seq!['('] + join_keys(args.take(0).map_values(|r: TermRec| r.0)));
        assert(vals@ =~= args.take(0).map_values(|r: TermRec| r.2));
    }
    while j < it.len()
        invariant
            j <= it.len(),
            args == it@.map_values(|i: usize| recs_view(ts@)[i as int]),
            forall|k: int| 0 <= k < it.len() ==> (#[trigger] it@[k]) < ts.len(),
            forall|k: int| 0 <= k < ts.len() ==> (#[trigger] ts@[k]).1 <= bound,
            key@ == sym@ + seq!['('] + join_keys(args.take(j as int).map_values(|r: TermRec| r.0)),
            vals@ == args.take(j as int).map_values(|r: TermRec| r.2),
            maxd == max_depth_of(args.take(j as int)),
            maxd <= bound,
        decreases it.len() - j,
    {
        let t = &ts[it[j]];
        proof {
            assert(args[j as int] == rec_view(ts@[it@[j as int] as int]));
            lemma_args_step(args, j as int);
        }
        if j > 0 {
            push_char(&mut key, ',');
        }
        push_str(&mut key, t.0.as_str());
        vals.push(t.2);
        if t.1 > maxd {
            maxd = t.1;
        }
        proof {
            if j == 0 {
                assert(args.take(0).map_values(|r: TermRec| r.0) =~= Seq::<Seq<char>>::empty());
            }
            assert(key@ =~= sym@ + seq!['('] + join_keys(args.take(j + 1).map_values(|r: TermRec| r.0)));
        }
        j += 1;
    }
    push_char(&mut key, ')');
    proof {
        assert(args.take(it.len() as int) =~= args);
    }
    let value = match find_operation(ops, sym) {
        Some(i) => match ops[i].call(vals.as_slice()) {
            Some(v) => v,
            None => -1,
        },
        None => -1,
    };
    proof {
        lemma_first_op(ops@, sym@);
    }
    (key, maxd + 1, value)
}

/// Appends the terms `sym(args..)` for all argument tuples over `ts`.
pub fn push_group_terms(
    out: &mut Vec<(String, usize, i64)>,
    ops: &Vec<Operation>,
    sym: &String,
    ar: usize,
    ts: &Vec<(String, usize, i64)>,
    bound: usize,
)
    requires
        ops_wf(ops@),
        bound < usize::MAX,
        forall|k: int| 0 <= k < ts.len() ==> (#[trigger] ts@[k]).1 <= bound,
        forall|k: int| 0 <= k < old(out).len() ==> (#[trigger] old(out)@[k]).1 <= bound + 1,
    ensures
        recs_view(final(out)@) == recs_view(old(out)@) + group_terms(recs_view(ts@), ops@, (sym@, ar as nat)),
        forall|k: int| 0 <= k < final(out).len() ==> (#[trigger] final(out)@[k]).1 <= bound + 1,
{
    let tuples = index_tuple_list(ts.len(), ar);
    let ghost tv = recs_view(ts@);
    let ghost start = recs_view(out@);
    let ghost g = (sym@, ar as nat);
    let ghost gt = group_terms(tv, ops@, g);
    proof {
        lemma_index_tuples(ts.len(), ar as nat);
        assert(tv.len() as usize == ts.len());
        assert(recs_view(out@) =~= start + gt.take(0));
    }
    let mut a: usize = 0;
    while a < tuples.len()
        invariant
            a <= tuples.len(),
            ops_wf(ops@),
            bound < usize::MAX,
            tv == recs_view(ts@),
            tuples.deep_view() == index_tuples(ts.len(), ar as nat),
            gt == group_terms(tv, ops@, g),
            g == (sym@, ar as nat),
            gt.len() == tuples.len(),
            forall|t: int| 0 <= t < tuples.len() ==> (#[trigger] tuples.deep_view()[t]).len() == ar
                && forall|x: int| 0 <= x < ar ==> tuples.deep_view()[t][x] < ts.len(),
            forall|k: int| 0 <= k < ts.len() ==> (#[trigger] ts@[k]).1 <= bound,
            recs_view(out@) == start + gt.take(a as int),
            forall|k: int| 0 <= k < out.len() ==> (#[trigger] out@[k]).1 <= bound + 1,
        decreases tuples.len() - a,
    {
        proof {
            assert(tuples.deep_view()[a as int] == tuples@[a as int]@);
            assert forall|k: int| 0 <= k < tuples@[a as int].len() implies (#[trigger] tuples@[a as int]@[k]) < ts.len() by {
                assert(tuples.deep_view()[a as int][k] < ts.len());
            }
        }
        let r = make_op_rec(ops, sym, ts, &tuples[a], bound);
        let ghost before = out@;
        out.push(r);
        proof {
            assert(gt[a as int] == op_rec(ops@, sym@, tuples@[a as int]@.map_values(|i: usize| tv[i as int])));
            assert(recs_view(out@) =~= recs_view(before).push(rec_view(r)));
            assert(gt.take(a + 1) =~= gt.take(a as int).push(gt[a as int]));
            assert(recs_view(out@) =~= start + gt.take(a + 1));
        }
        a += 1;
    }
    proof {
        assert(gt.take(tuples.len() as int) =~= gt);
    }
}

/// One layer of new terms over `ts`.
pub fn grow_terms(
    ts: &Vec<(String, usize, i64)>,
    ops: &Vec<Operation>,
    groups: &Vec<(String, usize)>,
    bound: usize,
) -> (r: Vec<(String, usize, i64)>)
    requires
        ops_wf(ops@),
        bound < usize::MAX,
        forall|k: int| 0 <= k < ts.len() ==> (#[trigger] ts@[k]).1 <= bound,
    ensures
        recs_view(r@) == grow(recs_view(ts@), ops@, groups_view(groups@)),
        forall|k: int| 0 <= k < r.len() ==> (#[trigger] r@[k]).1 <= bound + 1,
{
    let ghost gv = groups_view(groups@);
    let mut out: Vec<(String, usize, i64)> = Vec::new();
    let mut i: usize = 0;
    proof {
        assert(gv.take(0) =~= Seq::<(Seq<char>, nat)>::empty());
        assert(recs_view(out@) =~= Seq::<TermRec>::empty());
    }
    while i < groups.len()
        invariant
            i <= groups.len(),
            ops_wf(ops@),
            bound < usize::MAX,
            gv == groups_view(groups@),
            forall|k: int| 0 <= k < ts.len() ==> (#[trigger] ts@[k]).1 <= bound,
            recs_view(out@) == grow(recs_view(ts@), ops@, gv.take(i as int)),
            forall|k: int| 0 <= k < out.len() ==> (#[trigger] out@[k]).1 <= bound + 1,
        decreases groups.len() - i,
    {
        push_group_terms(&mut out, ops, &groups[i].0, groups[i].1, ts, bound);
        proof {
            assert(gv.take(i + 1).drop_last() =~= gv.take(i as int));
            assert(gv.take(i + 1).last() == (groups@[i as int].0@, groups@[i as int].1 as nat));
        }
        i += 1;
    }
    proof {
        assert(gv.take(groups.len() as int) =~= gv);
    }
    out
}

/// Keys and values of the terms of depth `d`, in order.
pub fn level_pairs(ts: &Vec<(String, usize, i64)>, d: usize) -> (r: Vec<(String, i64)>)
    ensures
        pairs_view(r@) == level(recs_view(ts@), d as nat),
{
    let ghost tv = recs_view(ts@);
    let mut r: Vec<(String, i64)> = Vec::new();
    let mut i: usize = 0;
    proof {
        assert(tv.take(0) =~= Seq::<TermRec>::empty());
        assert(pairs_view(r@) =~= Seq::<(Seq<char>, i64)>::empty());
    }
    while i < ts.len()
        invariant
            i <= ts.len(),
            tv == recs_view(ts@),
            pairs_view(r@) == level(tv.take(i as int), d as nat),
        decreases ts.len() - i,
    {
        proof {
            assert(tv.take(i + 1).drop_last() =~= tv.take(i as int));
            assert(tv.take(i + 1).last() == rec_view(ts@[i as int]));
        }
        if ts[i].1 == d {
            let ghost before = r@;
            r.push((ts[i].0.clone(), ts[i].2));
            proof {
                assert(pairs_view(r@) =~= pairs_view(before).push((ts@[i as int].0@, ts@[i as int].2)));
            }
        }
        i += 1;
    }
    proof {
        assert(tv.take(ts.len() as int) =~= tv);
    }
    r
}

/// Where a term with key `key` goes into a key-ordered list: before the first
/// entry whose key is not below `key`.
pub open spec fn insert_pos(r: Seq<(Seq<char>, i64)>, key: Seq<char>) -> nat
    decreases r.len(),
{
    if r.len() == 0 {
        0
    } else if seq_lt(r[0].0, key) {
        1 + insert_pos(r.drop_first(), key)
    } else {
        0
    }
}

/// Stable sort by key: entries with equal keys keep their order.
pub open spec fn sort_pairs(s: Seq<(Seq<char>, i64)>) -> Seq<(Seq<char>, i64)>
    decreases s.len(),
{
    if s.len() == 0 {
        Seq::empty()
    } else {
        let r = sort_pairs(s.drop_first());
        r.insert(insert_pos(r, s[0].0) as int, s[0])
    }
}

proof fn lemma_insert_pos(r: Seq<(Seq<char>, i64)>, key: Seq<char>, p: int)
    requires
        0 <= p <= r.len(),
        forall|k: int| 0 <= k < p ==> seq_lt(#[trigger] r[k].0, key),
        p == r.len() || !seq_lt(r[p].0, key),
    ensures
        insert_pos(r, key) == p,
    decreases p,
{
    if p > 0 {
        assert(seq_lt(r[0].0, key));
        let d = r.drop_first();
        assert forall|k: int| 0 <= k < p - 1 implies seq_lt(#[trigger] d[k].0, key) by {
            assert(d[k] == r[k + 1]);
        }
        if p < r.len() {
            assert(d[p - 1] == r[p]);
        }
        lemma_insert_pos(d, key, p - 1);
    }
}

/// The pairs stably sorted by key.
pub fn sort_by_key(v: Vec<(String, i64)>) -> (r: Vec<(String, i64)>)
    ensures
        pairs_view(r@) == sort_pairs(pairs_view(v@)),
{
    let ghost orig = pairs_view(v@);
    let mut src = v;
    let mut r: Vec<(String, i64)> = Vec::new();
    proof {
        assert(orig.skip(orig.len() as int) =~= Seq::<(Seq<char>, i64)>::empty());
        assert(pairs_view(r@) =~= Seq::<(Seq<char>, i64)>::empty());
        assert(pairs_view(src@) =~= orig.take(src.len() as int));
    }
    while src.len() > 0
        invariant
            src.len() <= orig.len(),
            pairs_view(src@) == orig.take(src.len() as int),
            pairs_view(r@) == sort_pairs(orig.skip(src.len() as int)),
        decreases src.len(),
    {
        let ghost m = src.len() as int;
        let ghost sv = src@;
        let x = src.pop().unwrap();
        let ghost xv = (x.0@, x.1);
        proof {
            assert(pairs_view(sv)[m - 1] == xv);
            assert(orig.take(m)[m - 1] == orig[m - 1]);
            assert(pairs_view(src@) =~= orig.take(m - 1));
            let sk = orig.skip(m - 1);
            assert(sk.drop_first() =~= orig.skip(m));
            assert(sk[0] == xv);
        }
        let mut pos: usize = 0;
        while pos < r.len() && str_lt(r[pos].0.as_str(), x.0.as_str())
            invariant
                pos <= r.len(),
                forall|k: int| 0 <= k < pos ==> seq_lt(#[trigger] r@[k].0@, x.0@),
            decreases r.len() - pos,
        {
            pos += 1;
        }
        let ghost before = pairs_view(r@);
        proof {
            assert forall|k: int| 0 <= k < pos implies seq_lt(#[trigger] before[k].0, xv.0) by {
                assert(before[k].0 == r@[k].0@);
            }
            if pos < r.len() {
                assert(before[pos as int].0 == r@[pos as int].0@);
            }
            lemma_insert_pos(before, xv.0, pos as int);
        }
        r.insert(pos, x);
        proof {
            assert(pairs_view(r@) =~= before.insert(pos as int, xv));
        }
    }
    proof {
        assert(orig.skip(0) =~= orig);
    }
    r
}

/// `group_lt` is irreflexive, transitive and total.
pub proof fn lemma_group_lt(a: (Seq<char>, nat), b: (Seq<char>, nat), c: (Seq<char>, nat))
    ensures
        !group_lt(a, a),
        group_lt(a, b) && group_lt(b, c) ==> group_lt(a, c),
        a != b ==> (group_lt(a, b) || group_lt(b, a)),
        !(group_lt(a, b) && group_lt(b, a)),
{
    lemma_seq_lt_irrefl(a.0);
    lemma_seq_lt_total(a.0, b.0);
    if group_lt(a, b) && group_lt(b, c) && a.1 == b.1 && b.1 == c.1 {
        lemma_seq_lt_trans(a.0, b.0, c.0);
    }
}

/// Strictly increasing in group order.
pub open spec fn groups_sorted(gs: Seq<(Seq<char>, nat)>) -> bool {
    forall|i: int, j: int| 0 <= i < j < gs.len() ==> group_lt(#[trigger] gs[i], #[trigger] gs[j])
}

/// Two strictly increasing lists with the same elements are equal.
pub proof fn lemma_groups_unique(a: Seq<(Seq<char>, nat)>, b: Seq<(Seq<char>, nat)>)
    requires
        groups_sorted(a),
        groups_sorted(b),
        forall|g: (Seq<char>, nat)| #[trigger] a.contains(g) <==> b.contains(g),
    ensures
        a == b,
    decreases a.len(),
{
    if a.len() == 0 {
        if b.len() > 0 {
            assert(b.contains(b[0]));
            assert(a.contains(b[0]));
            let w = choose|w: int| 0 <= w < a.len() && a[w] == b[0];
            assert(false);
        }
        assert(a =~= b);
    } else {
        assert(a.contains(a[0]));
        assert(b.contains(a[0]));
        let ka = choose|k: int| 0 <= k < b.len() && b[k] == a[0];
        assert(b.len() > 0);
        assert(b.contains(b[0]));
        assert(a.contains(b[0]));
        let kb = choose|k: int| 0 <= k < a.len() && a[k] == b[0];
        if a[0] != b[0] {
            assert(ka > 0 && kb > 0);
            assert(group_lt(b[0], b[ka]));
            assert(group_lt(a[0], a[kb]));
            lemma_group_lt(a[0], b[0], a[0]);
        }
        let a1 = a.drop_first();
        let b1 = b.drop_first();
        assert(groups_sorted(a1)) by {
            assert forall|i: int, j: int| 0 <= i < j < a1.len() implies group_lt(#[trigger] a1[i], #[trigger] a1[j]) by {
                assert(a1[i] == a[i + 1] && a1[j] == a[j + 1]);
            }
        }
        assert(groups_sorted(b1)) by {
            assert forall|i: int, j: int| 0 <= i < j < b1.len() implies group_lt(#[trigger] b1[i], #[trigger] b1[j]) by {
                assert(b1[i] == b[i + 1] && b1[j] == b[j + 1]);
            }
        }
        assert forall|x: (Seq<char>, nat)| #[trigger] a1.contains(x) <==> b1.contains(x) by {
            if a1.contains(x) {
                let i = choose|i: int| 0 <= i < a1.len() && a1[i] == x;
                assert(a[i + 1] == x);
                assert(group_lt(a[0], x));
                lemma_group_lt(x, x, x);
                assert(a.contains(x));
                let j = choose|j: int| 0 <= j < b.len() && b[j] == x;
                assert(j != 0);
                assert(b1[j - 1] == x);
            }
            if b1.contains(x) {
                let i = choose|i: int| 0 <= i < b1.len() && b1[i] == x;
                assert(b[i + 1] == x);
                assert(group_lt(b[0], x));
                lemma_group_lt(x, x, x);
                assert(b.contains(x));
                assert(a.contains(x));
                let j = choose|j: int| 0 <= j < a.len() && a[j] == x;
                assert(j != 0);
                assert(a1[j - 1] == x);
            }
        }
        lemma_groups_unique(a1, b1);
        assert(a =~= seq![a[0]] + a1);
        assert(b =~= seq![b[0]] + b1);
    }
}

/// Any two lists of operation groups of the same operations are equal.
pub proof fn lemma_op_groups_unique(a: Seq<(Seq<char>, nat)>, b: Seq<(Seq<char>, nat)>, ops: Seq<Operation>, min: nat)
    requires
        is_op_groups_min(a, ops, min),
        is_op_groups_min(b, ops, min),
    ensures
        a == b,
{
    assert forall|g: (Seq<char>, nat)| #[trigger] a.contains(g) <==> b.contains(g) by {
        assert(a.contains(g) == b.contains(g));
    }
    lemma_groups_unique(a, b);
}

/// Group order on executable groups.
fn group_less(a: &(String, usize), b: &(String, usize)) -> (r: bool)
    ensures
        r == group_lt((a.0@, a.1 as nat), (b.0@, b.1 as nat)),
{
    a.1 < b.1 || (a.1 == b.1 && str_lt(a.0.as_str(), b.0.as_str()))
}

/// The operations of arity at least `min` as `(name, arity)`, by arity and then by name.
pub fn op_groups(ops: &Vec<Operation>, min: usize) -> (gs: Vec<(String, usize)>)
    requires
        forall|i: int, j: int| 0 <= i < j < ops.len() ==> (#[trigger] ops@[i]).sym@ != (#[trigger] ops@[j]).sym@,
    ensures
        is_op_groups_min(groups_view(gs@), ops@, min as nat),
{
    let mut r: Vec<(String, usize)> = Vec::new();
    let mut i: usize = 0;
    proof {
        assert(groups_view(r@) =~= Seq::<(Seq<char>, nat)>::empty());
    }
    while i < ops.len()
        invariant
            i <= ops.len(),
            forall|a: int, b: int| 0 <= a < b < ops.len() ==> (#[trigger] ops@[a]).sym@ != (#[trigger] ops@[b]).sym@,
            groups_sorted(groups_view(r@)),
            forall|g: (Seq<char>, nat)|
                #[trigger] groups_view(r@).contains(g) <==> exists|k: int|
                    0 <= k < i && ops@[k].arity >= min && g == (#[trigger] ops@[k].sym@, ops@[k].arity as nat),
        decreases ops.len() - i,
    {
        if ops[i].arity >= min {
            let x = (ops[i].sym.clone(), ops[i].arity);
            let ghost xv = (x.0@, x.1 as nat);
            let ghost before = groups_view(r@);
            proof {
                assert(!before.contains(xv)) by {
                    if before.contains(xv) {
                        let k = choose|k: int|
                            0 <= k < i && ops@[k].arity >= min && xv == (#[trigger] ops@[k].sym@, ops@[k].arity as nat);
                        assert(ops@[k].sym@ == ops@[i as int].sym@);
                    }
                }
            }
            let mut pos: usize = 0;
            while pos < r.len() && group_less(&r[pos], &x)
                invariant
                    pos <= r.len(),
                    before == groups_view(r@),
                    xv == (x.0@, x.1 as nat),
                    forall|k: int| 0 <= k < pos ==> group_lt(#[trigger] before[k], xv),
                decreases r.len() - pos,
            {
                proof {
                    assert(before[pos as int] == (r@[pos as int].0@, r@[pos as int].1 as nat));
                }
                pos += 1;
            }
            proof {
                if pos < r.len() {
                    assert(before[pos as int] == (r@[pos as int].0@, r@[pos as int].1 as nat));
                    assert(!group_lt(before[pos as int], xv));
                    assert(before.contains(before[pos as int]));
                    lemma_group_lt(before[pos as int], xv, xv);
                    assert(group_lt(xv, before[pos as int]));
                }
            }
            r.insert(pos, x);
            proof {
                let after = groups_view(r@);
                assert(after =~= before.insert(pos as int, xv));
                assert forall|a: int, b: int| 0 <= a < b < after.len() implies group_lt(#[trigger] after[a], #[trigger] after[b]) by {
                    if b < pos {
                        assert(after[a] == before[a] && after[b] == before[b]);
                    } else if b == pos {
                        assert(after[a] == before[a]);
                    } else if a == pos {
                        assert(after[b] == before[b - 1]);
                        if b - 1 > pos {
                            lemma_group_lt(xv, before[pos as int], before[b - 1]);
                        }
                    } else if a < pos {
                        assert(after[a] == before[a] && after[b] == before[b - 1]);
                        lemma_group_lt(before[a], xv, before[b - 1]);
                        if b - 1 > pos {
                            lemma_group_lt(xv, before[pos as int], before[b - 1]);
                        }
                    } else {
                        assert(after[a] == before[a - 1] && after[b] == before[b - 1]);
                    }
                }
                assert forall|g: (Seq<char>, nat)|
                    #[trigger] after.contains(g) <==> exists|k: int|
                        0 <= k < i + 1 && ops@[k].arity >= min && g == (#[trigger] ops@[k].sym@, ops@[k].arity as nat) by {
                    if after.contains(g) {
                        let k = choose|k: int| 0 <= k < after.len() && after[k] == g;
                        if k < pos {
                            assert(before[k] == g);
                            assert(before.contains(g));
                        } else if k > pos {
                            assert(before[k - 1] == g);
                            assert(before.contains(g));
                        } else {
                            assert(g == (ops@[i as int].sym@, ops@[i as int].arity as nat));
                        }
                    }
                    if exists|k: int|
                        0 <= k < i + 1 && ops@[k].arity >= min && g == (#[trigger] ops@[k].sym@, ops@[k].arity as nat) {
                        let k = choose|k: int|
                            0 <= k < i + 1 && ops@[k].arity >= min && g == (#[trigger] ops@[k].sym@, ops@[k].arity as nat);
                        if k < i {
                            assert(before.contains(g));
                            let w = choose|w: int| 0 <= w < before.len() && before[w] == g;
                            if w < pos {
                                assert(after[w] == g);
                            } else {
                                assert(after[w + 1] == g);
                            }
                        } else {
                            assert(after[pos as int] == g);
                        }
                    }
                }
            }
        } else {
            proof {
                assert forall|g: (Seq<char>, nat)|
                    #[trigger] groups_view(r@).contains(g) <==> exists|k: int|
                        0 <= k < i + 1 && ops@[k].arity >= min && g == (#[trigger] ops@[k].sym@, ops@[k].arity as nat) by {
                    if exists|k: int|
                        0 <= k < i + 1 && ops@[k].arity >= min && g == (#[trigger] ops@[k].sym@, ops@[k].arity as nat) {
                        let k = choose|k: int|
                            0 <= k < i + 1 && ops@[k].arity >= min && g == (#[trigger] ops@[k].sym@, ops@[k].arity as nat);
                        assert(k < i);
                    }
                }
            }
        }
        i += 1;
    }
    r
}

} // verus!
