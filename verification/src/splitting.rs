//! One step of the splitting search: a candidate term is applied to every tuple of a
//! block, and the block falls apart by the position that names the term's value.

use vstd::prelude::*;

use crate::first_order::formulas::{
    and_spec, copy_formula, copy_term, eq, eq_spec, formula_view, law_and_formula_is_conjunction, lemma_neg_sat,
    neg_spec, sat, term_view, true_formula, Formula, FormulaV, Term,
};
use crate::first_order::relops::Operation;
use crate::hit::{hist_index, pick, TupleHistory};

verus! {

/// Tuples that no candidate has separated yet, with the formula that cuts them out.
pub struct Block {
    pub tuples: Vec<TupleHistory>,
    pub formula: Formula,
}

impl Block {
    /// Every history starts with its tuple and holds new, distinct generated values.
    pub open spec fn wf(&self) -> bool {
        forall|j: int| 0 <= j < self.tuples.len() ==> (#[trigger] self.tuples@[j]).wf()
    }
}

/// A part of a block after a step: the position naming the candidate's value on its
/// tuples, and whether that value was new for one of them.
pub struct Child {
    pub block: Block,
    pub index: usize,
    pub generated: bool,
}

/// The candidate `op` at positions `ti` can be applied to the history.
pub open spec fn step_ok(th: TupleHistory, op: Operation, ti: Seq<usize>) -> bool {
    &&& forall|k: int| 0 <= k < ti.len() ==> #[trigger] ti[k] < th.history@.len()
    &&& op.spec_call(pick(th.history@, ti)) is Some
}

/// Value of the candidate on the history.
pub open spec fn step_value(th: TupleHistory, op: Operation, ti: Seq<usize>) -> i64 {
    op.spec_call(pick(th.history@, ti)).unwrap()
}

/// The value is new for the history.
pub open spec fn step_new(th: TupleHistory, op: Operation, ti: Seq<usize>) -> bool {
    !th.history@.contains(step_value(th, op, ti))
}

/// Position that names the value after the step.
pub open spec fn step_index(th: TupleHistory, op: Operation, ti: Seq<usize>) -> int {
    if step_new(th, op, ti) {
        th.history@.len() as int
    } else {
        hist_index(th.t@, th.history@, step_value(th, op, ti))
    }
}

/// `out` is the history `th` after the step.
#[verifier::opaque]
pub open spec fn stepped_as(out: TupleHistory, th: TupleHistory, op: Operation, ti: Seq<usize>) -> bool {
    &&& out.t@ == th.t@
    &&& out.in_target == th.in_target
    &&& out.has_generated == step_new(th, op, ti)
    &&& out.history@ == if step_new(th, op, ti) {
        th.history@.push(step_value(th, op, ti))
    } else {
        th.history@
    }
}

/// The stepped history `th` lies in one of the parts `r`, the one of its position.
pub open spec fn lands_in(r: Seq<Child>, th: TupleHistory, op: Operation, ti: Seq<usize>) -> bool {
    exists|c: int, k: int|
        0 <= c < r.len() && 0 <= k < r[c].block.tuples.len() && stepped_as(#[trigger] r[c].block.tuples@[k], th, op, ti)
            && r[c].index == step_index(th, op, ti)
}

/// `x` is a history of `bt` after the step, and `index` is its position.
pub open spec fn comes_from(bt: Seq<TupleHistory>, x: TupleHistory, index: usize, op: Operation, ti: Seq<usize>) -> bool {
    exists|j: int| 0 <= j < bt.len() && stepped_as(x, #[trigger] bt[j], op, ti) && index == step_index(bt[j], op, ti)
}

/// The formula that tells the part with position `index` apart: the candidate term
/// equals the term named by that position.
pub open spec fn telling(term: Term, names: Seq<Term>, index: int) -> FormulaV {
    eq_spec(term_view(term), term_view(names[index]))
}

/// The position naming a value of the history lies inside it.
pub proof fn lemma_hist_index_bound(th: TupleHistory, x: i64)
    requires
        th.wf(),
        th.history@.contains(x),
    ensures
        0 <= hist_index(th.t@, th.history@, x) < th.history@.len(),
{
    let t = th.t@;
    let h = th.history@;
    if t.contains(x) {
        lemma_last_pos(t, x);
    } else {
        let w = choose|w: int| 0 <= w < h.len() && h[w] == x;
        if w < t.len() {
            assert(h.take(t.len() as int)[w] == x);
            assert(t[w] == x);
        }
        lemma_first_pos_from(h, x, t.len() as int, w);
    }
}

proof fn lemma_last_pos(s: Seq<i64>, x: i64)
    requires
        s.contains(x),
    ensures
        0 <= crate::hit::last_pos(s, x) < s.len(),
    decreases s.len(),
{
    if s.last() != x {
        let w = choose|w: int| 0 <= w < s.len() && s[w] == x;
        assert(s.drop_last()[w] == x);
        lemma_last_pos(s.drop_last(), x);
    }
}

proof fn lemma_first_pos_from(s: Seq<i64>, x: i64, from: int, w: int)
    requires
        0 <= from <= w < s.len(),
        s[w] == x,
    ensures
        from <= crate::hit::first_pos_from(s, x, from) <= w,
    decreases w - from,
{
    if s[from] != x {
        lemma_first_pos_from(s, x, from + 1, w);
    }
}

fn copy_history(th: &TupleHistory) -> (r: TupleHistory)
    ensures
        r.t@ == th.t@,
        r.history@ == th.history@,
        r.in_target == th.in_target,
        r.has_generated == th.has_generated,
{
    TupleHistory {
        t: crate::util::copy_tuple(th.t.as_slice()),
        history: crate::util::copy_tuple(th.history.as_slice()),
        in_target: th.in_target,
        has_generated: th.has_generated,
    }
}

/// The two histories agree in every field.
#[verifier::opaque]
pub open spec fn same_history(a: TupleHistory, b: TupleHistory) -> bool {
    a.t@ == b.t@ && a.history@ == b.history@ && a.in_target == b.in_target && a.has_generated == b.has_generated
}

/// A history equal in every field to a stepped one is stepped too.
proof fn lemma_same_stepped(x: TupleHistory, y: TupleHistory, th: TupleHistory, op: Operation, ti: Seq<usize>)
    requires
        same_history(x, y),
    ensures
        stepped_as(y, th, op, ti) ==> stepped_as(x, th, op, ti),
        y.wf() ==> x.wf(),
        x.has_generated == y.has_generated,
{
    reveal(same_history);
    reveal(stepped_as);
}

/// Every history of `b` after the step, with the position naming the value.
fn step_all(b: &Block, op: &Operation, ti: &[usize]) -> (r: (Vec<TupleHistory>, Vec<usize>))
    requires
        b.wf(),
        op.wf(),
        forall|j: int| 0 <= j < b.tuples.len() ==> step_ok(#[trigger] b.tuples@[j], *op, ti@),
    ensures
        r.0.len() == b.tuples.len(),
        r.1.len() == b.tuples.len(),
        forall|j: int|
            0 <= j < b.tuples.len() ==> stepped_as(#[trigger] r.0@[j], b.tuples@[j], *op, ti@) && r.0@[j].wf()
                && r.1@[j] == step_index(b.tuples@[j], *op, ti@),
{
    let n = b.tuples.len();
    let mut stepped: Vec<TupleHistory> = Vec::new();
    let mut idx: Vec<usize> = Vec::new();
    let mut j: usize = 0;
    while j < n
        invariant
            j <= n,
            n == b.tuples.len(),
            b.wf(),
            op.wf(),
            forall|j2: int| 0 <= j2 < n ==> step_ok(#[trigger] b.tuples@[j2], *op, ti@),
            stepped.len() == j,
            idx.len() == j,
            forall|j2: int|
                0 <= j2 < j ==> stepped_as(#[trigger] stepped@[j2], b.tuples@[j2], *op, ti@) && stepped@[j2].wf()
                    && idx@[j2] == step_index(b.tuples@[j2], *op, ti@),
        decreases n - j,
    {
        let mut th = copy_history(&b.tuples[j]);
        proof {
            assert(step_ok(b.tuples@[j as int], *op, ti@));
            assert(b.tuples@[j as int].wf());
        }
        let i = th.step(op, ti);
        proof {
            reveal(stepped_as);
        }
        let ghost sb = stepped@;
        let ghost ib = idx@;
        stepped.push(th);
        idx.push(i);
        proof {
            assert forall|j2: int|
                0 <= j2 < j + 1 implies stepped_as(#[trigger] stepped@[j2], b.tuples@[j2], *op, ti@) && stepped@[j2].wf()
                    && idx@[j2] == step_index(b.tuples@[j2], *op, ti@) by {
                if j2 < j {
                    assert(stepped@[j2] == sb[j2]);
                    assert(idx@[j2] == ib[j2]);
                }
            }
        }
        j += 1;
    }
    (stepped, idx)
}

/// The distinct positions of `idx`, in order of first appearance.
fn distinct_keys(idx: &Vec<usize>) -> (keys: Vec<usize>)
    ensures
        forall|c: int, d: int| 0 <= c < d < keys.len() ==> keys@[c] != keys@[d],
        forall|j: int| 0 <= j < idx.len() ==> keys@.contains(#[trigger] idx@[j]),
        forall|c: int| 0 <= c < keys.len() ==> idx@.contains(#[trigger] keys@[c]),
{
    let n = idx.len();
    let mut keys: Vec<usize> = Vec::new();
    let mut j: usize = 0;
    while j < n
        invariant
            j <= n,
            n == idx.len(),
            forall|c: int, d: int| 0 <= c < d < keys.len() ==> keys@[c] != keys@[d],
            forall|j2: int| 0 <= j2 < j ==> keys@.contains(#[trigger] idx@[j2]),
            forall|c: int| 0 <= c < keys.len() ==> idx@.contains(#[trigger] keys@[c]),
        decreases n - j,
    {
        let mut found = false;
        let mut c: usize = 0;
        while c < keys.len()
            invariant
                c <= keys.len(),
                j < n,
                n == idx.len(),
                found == exists|c2: int| 0 <= c2 < c && keys@[c2] == idx@[j as int],
            decreases keys.len() - c,
        {
            if keys[c] == idx[j] {
                found = true;
            }
            c += 1;
        }
        let ghost kb = keys@;
        if !found {
            keys.push(idx[j]);
            proof {
                assert(keys@[keys.len() - 1] == idx@[j as int]);
                assert forall|c2: int| 0 <= c2 < keys.len() implies idx@.contains(#[trigger] keys@[c2]) by {
                    if c2 < kb.len() {
                        assert(keys@[c2] == kb[c2]);
                    } else {
                        assert(idx@[j as int] == keys@[c2]);
                    }
                }
            }
        }
        proof {
            assert forall|j2: int| 0 <= j2 < j + 1 implies keys@.contains(#[trigger] idx@[j2]) by {
                if j2 < j {
                    assert(kb.contains(idx@[j2]));
                    let w = choose|w: int| 0 <= w < kb.len() && kb[w] == idx@[j2];
                    assert(keys@[w] == kb[w]);
                } else if found {
                    let c2 = choose|c2: int| 0 <= c2 < kb.len() && kb[c2] == idx@[j as int];
                    assert(keys@[c2] == kb[c2]);
                } else {
                    assert(keys@[keys.len() - 1] == idx@[j as int]);
                }
            }
        }
        j += 1;
    }
    keys
}

/// The histories of `stepped` whose position is `key`, in order, whether one of them got
/// a new value, and (as ghost) the position in `stepped` each one comes from.
fn gather(stepped: &Vec<TupleHistory>, idx: &Vec<usize>, key: usize) -> (r: (Vec<TupleHistory>, bool, Ghost<Seq<int>>))
    requires
        stepped.len() == idx.len(),
    ensures
        r.2@.len() == r.0.len(),
        forall|k: int|
            0 <= k < r.0.len() ==> 0 <= #[trigger] r.2@[k] < idx.len() && idx@[r.2@[k]] == key && same_history(
                r.0@[k],
                stepped@[r.2@[k]],
            ),
        forall|j: int| 0 <= j < idx.len() && #[trigger] idx@[j] == key ==> r.2@.contains(j),
        r.1 <==> exists|k: int| 0 <= k < r.0.len() && (#[trigger] r.0@[k]).has_generated,
{
    let n = idx.len();
    let mut g: Vec<TupleHistory> = Vec::new();
    let mut gen = false;
    let ghost mut src: Seq<int> = Seq::empty();
    let mut j: usize = 0;
    while j < n
        invariant
            j <= n,
            n == idx.len(),
            stepped.len() == n,
            src.len() == g.len(),
            forall|k: int|
                0 <= k < g.len() ==> 0 <= #[trigger] src[k] < j && idx@[src[k]] == key && same_history(
                    g@[k],
                    stepped@[src[k]],
                ),
            forall|j2: int| 0 <= j2 < j && #[trigger] idx@[j2] == key ==> src.contains(j2),
            gen <==> exists|k: int| 0 <= k < g.len() && (#[trigger] g@[k]).has_generated,
        decreases n - j,
    {
        if idx[j] == key {
            let th = copy_history(&stepped[j]);
            let th_gen = th.has_generated;
            let ghost before = g@;
            let ghost sb = src;
            proof {
                reveal(same_history);
            }
            g.push(th);
            proof {
                src = src.push(j as int);
            }
            if th_gen {
                gen = true;
            }
            proof {
                assert forall|k: int|
                    0 <= k < g.len() implies 0 <= #[trigger] src[k] < j + 1 && idx@[src[k]] == key && same_history(
                        g@[k],
                        stepped@[src[k]],
                    ) by {
                    if k < before.len() {
                        assert(g@[k] == before[k]);
                        assert(src[k] == sb[k]);
                    }
                }
                assert forall|j2: int| 0 <= j2 < j + 1 && #[trigger] idx@[j2] == key implies src.contains(j2) by {
                    if j2 < j {
                        let w = choose|w: int| 0 <= w < sb.len() && sb[w] == j2;
                        assert(src[w] == sb[w]);
                    } else {
                        assert(src[src.len() - 1] == j2);
                    }
                }
                if gen {
                    if !th_gen {
                        let k = choose|k: int| 0 <= k < before.len() && (#[trigger] before[k]).has_generated;
                        assert(g@[k] == before[k]);
                    } else {
                        assert(g@[g.len() - 1].has_generated);
                    }
                } else {
                    assert forall|k: int| 0 <= k < g.len() implies !(#[trigger] g@[k]).has_generated by {
                        if k < before.len() {
                            assert(g@[k] == before[k]);
                        }
                    }
                }
            }
        }
        j += 1;
    }
    let ghost gv = g@;
    let res = (g, gen, Ghost(src));
    proof {
        assert(res.0@ == gv);
        if gen {
            let k = choose|k: int| 0 <= k < gv.len() && (#[trigger] gv[k]).has_generated;
            assert(res.0@[k].has_generated);
        } else {
            assert forall|k: int| 0 <= k < res.0.len() implies !(#[trigger] res.0@[k]).has_generated by {
                assert(res.0@[k] == gv[k]);
            }
        }
    }
    res
}

/// The histories of `stepped` grouped by their position, one group per key, with the
/// new-value mark of each group and (as ghost) where each member comes from.
fn group_all(stepped: &Vec<TupleHistory>, idx: &Vec<usize>, keys: &Vec<usize>) -> (r: (
    Vec<Vec<TupleHistory>>,
    Vec<bool>,
    Ghost<Seq<Seq<int>>>,
))
    requires
        stepped.len() == idx.len(),
        forall|c2: int| 0 <= c2 < keys.len() ==> idx@.contains(#[trigger] keys@[c2]),
    ensures
        r.0.len() == keys.len(),
        r.1.len() == keys.len(),
        r.2@.len() == keys.len(),
        forall|c2: int| 0 <= c2 < keys.len() ==> (#[trigger] r.2@[c2]).len() == r.0@[c2].len(),
        forall|c2: int, k: int|
            0 <= c2 < keys.len() && 0 <= k < r.0@[c2].len() ==> 0 <= #[trigger] r.2@[c2][k] < idx.len()
                && idx@[r.2@[c2][k]] == keys@[c2] && same_history(r.0@[c2]@[k], stepped@[r.2@[c2][k]]),
        forall|c2: int, j: int|
            0 <= c2 < keys.len() && 0 <= j < idx.len() && #[trigger] idx@[j] == #[trigger] keys@[c2] ==> r.2@[c2].contains(j),
        forall|c2: int| 0 <= c2 < keys.len() ==> (#[trigger] r.0@[c2]).len() > 0,
        forall|c2: int|
            0 <= c2 < keys.len() ==> (#[trigger] r.1@[c2] <==> exists|k: int|
                0 <= k < r.0@[c2].len() && (#[trigger] r.0@[c2]@[k]).has_generated),
{
    let n = idx.len();
    let mut groups: Vec<Vec<TupleHistory>> = Vec::new();
    let mut gens: Vec<bool> = Vec::new();
    let ghost mut srcs: Seq<Seq<int>> = Seq::empty();
    let mut c: usize = 0;
    while c < keys.len()
        invariant
            c <= keys.len(),
            idx.len() == n,
            stepped.len() == n,
            forall|c2: int| 0 <= c2 < keys.len() ==> idx@.contains(#[trigger] keys@[c2]),
            groups.len() == c,
            gens.len() == c,
            srcs.len() == c,
            forall|c2: int| 0 <= c2 < c ==> (#[trigger] srcs[c2]).len() == groups@[c2].len(),
            forall|c2: int, k: int|
                0 <= c2 < c && 0 <= k < groups@[c2].len() ==> 0 <= #[trigger] srcs[c2][k] < n && idx@[srcs[c2][k]]
                    == keys@[c2] && same_history(groups@[c2]@[k], stepped@[srcs[c2][k]]),
            forall|c2: int, j: int|
                0 <= c2 < c && 0 <= j < n && #[trigger] idx@[j] == #[trigger] keys@[c2] ==> srcs[c2].contains(j),
            forall|c2: int| 0 <= c2 < c ==> (#[trigger] groups@[c2]).len() > 0,
            forall|c2: int|
                0 <= c2 < c ==> (#[trigger] gens@[c2] <==> exists|k: int|
                    0 <= k < groups@[c2].len() && (#[trigger] groups@[c2]@[k]).has_generated),
        decreases keys.len() - c,
    {
        let (g, gen, Ghost(src)) = gather(&stepped, &idx, keys[c]);
        proof {
            let j0 = choose|j0: int| 0 <= j0 < n && idx@[j0] == keys@[c as int];
            assert(src.contains(j0));
        }
        let ghost gb = groups@;
        let ghost eb = gens@;
        let ghost sb = srcs;
        groups.push(g);
        gens.push(gen);
        proof {
            srcs = srcs.push(src);
            assert(groups@[c as int] == g);
            assert forall|c2: int| 0 <= c2 < c + 1 implies (#[trigger] srcs[c2]).len() == groups@[c2].len() by {
                if c2 < c {
                    assert(groups@[c2] == gb[c2]);
                    assert(srcs[c2] == sb[c2]);
                }
            }
            assert forall|c2: int, k: int|
                0 <= c2 < c + 1 && 0 <= k < groups@[c2].len() implies 0 <= #[trigger] srcs[c2][k] < n && idx@[srcs[c2][k]]
                    == keys@[c2] && same_history(groups@[c2]@[k], stepped@[srcs[c2][k]]) by {
                if c2 < c {
                    assert(groups@[c2] == gb[c2]);
                    assert(srcs[c2] == sb[c2]);
                }
            }
            assert forall|c2: int, j: int|
                0 <= c2 < c + 1 && 0 <= j < n && #[trigger] idx@[j] == #[trigger] keys@[c2] implies srcs[c2].contains(j) by {
                if c2 < c {
                    assert(srcs[c2] == sb[c2]);
                }
            }
            assert forall|c2: int| 0 <= c2 < c + 1 implies (#[trigger] groups@[c2]).len() > 0 by {
                if c2 < c {
                    assert(groups@[c2] == gb[c2]);
                }
            }
            assert forall|c2: int|
                0 <= c2 < c + 1 implies (#[trigger] gens@[c2] <==> exists|k: int|
                    0 <= k < groups@[c2].len() && (#[trigger] groups@[c2]@[k]).has_generated) by {
                if c2 < c {
                    assert(groups@[c2] == gb[c2]);
                    assert(gens@[c2] == eb[c2]);
                }
            }
        }
        c += 1;
    }
    (groups, gens, Ghost(srcs))
}

/// Each tuple of the block lands in the part of its position.
proof fn lemma_parts_cover(
    bt: Seq<TupleHistory>,
    op: Operation,
    ti: Seq<usize>,
    stepped: Seq<TupleHistory>,
    idx: Seq<usize>,
    ks: Seq<usize>,
    gs: Seq<Vec<TupleHistory>>,
    es: Seq<bool>,
    ss: Seq<Seq<int>>,
    r: Seq<Child>,
)
    requires
        stepped.len() == bt.len(),
        idx.len() == bt.len(),
        forall|j: int|
            0 <= j < bt.len() ==> stepped_as(#[trigger] stepped[j], bt[j], op, ti) && stepped[j].wf() && idx[j]
                == step_index(bt[j], op, ti),
        gs.len() == ks.len(),
        ss.len() == ks.len(),
        forall|c: int| 0 <= c < ks.len() ==> (#[trigger] ss[c]).len() == gs[c].len(),
        forall|c: int, k: int|
            0 <= c < ks.len() && 0 <= k < gs[c].len() ==> 0 <= #[trigger] ss[c][k] < idx.len() && idx[ss[c][k]]
                == ks[c] && same_history(gs[c]@[k], stepped[ss[c][k]]),
        forall|j: int| 0 <= j < idx.len() ==> ks.contains(#[trigger] idx[j]),
        forall|c: int, j: int|
            0 <= c < ks.len() && 0 <= j < idx.len() && #[trigger] idx[j] == #[trigger] ks[c] ==> ss[c].contains(j),
        r.len() == ks.len(),
        forall|c: int|
            0 <= c < r.len() ==> (#[trigger] r[c]).index == ks[c] && r[c].generated == es[c] && r[c].block.tuples@
                == gs[c]@,
    ensures
        forall|j: int| 0 <= j < bt.len() ==> lands_in(r, #[trigger] bt[j], op, ti),
{
    assert forall|j: int| 0 <= j < bt.len() implies lands_in(r, #[trigger] bt[j], op, ti) by {
        assert(stepped_as(stepped[j], bt[j], op, ti));
        assert(ks.contains(idx[j]));
        let c = choose|c: int| 0 <= c < ks.len() && ks[c] == idx[j];
        assert(ss[c].contains(j));
        let k = choose|k: int| 0 <= k < ss[c].len() && ss[c][k] == j;
        assert(0 <= ss[c][k] < idx.len());
        assert(same_history(gs[c]@[k], stepped[j]));
        assert(r[c].block.tuples@[k] == gs[c]@[k]);
        lemma_same_stepped(gs[c]@[k], stepped[j], bt[j], op, ti);
        assert(stepped_as(r[c].block.tuples@[k], bt[j], op, ti));
        assert(r[c].index == step_index(bt[j], op, ti));
    }
}

/// Each tuple of a part comes from a tuple of the block with that position.
proof fn lemma_parts_sources(
    bt: Seq<TupleHistory>,
    op: Operation,
    ti: Seq<usize>,
    stepped: Seq<TupleHistory>,
    idx: Seq<usize>,
    ks: Seq<usize>,
    gs: Seq<Vec<TupleHistory>>,
    es: Seq<bool>,
    ss: Seq<Seq<int>>,
    r: Seq<Child>,
)
    requires
        stepped.len() == bt.len(),
        idx.len() == bt.len(),
        forall|j: int|
            0 <= j < bt.len() ==> stepped_as(#[trigger] stepped[j], bt[j], op, ti) && stepped[j].wf() && idx[j]
                == step_index(bt[j], op, ti),
        gs.len() == ks.len(),
        ss.len() == ks.len(),
        forall|c: int| 0 <= c < ks.len() ==> (#[trigger] ss[c]).len() == gs[c].len(),
        forall|c: int, k: int|
            0 <= c < ks.len() && 0 <= k < gs[c].len() ==> 0 <= #[trigger] ss[c][k] < idx.len() && idx[ss[c][k]]
                == ks[c] && same_history(gs[c]@[k], stepped[ss[c][k]]),
        r.len() == ks.len(),
        forall|c: int|
            0 <= c < r.len() ==> (#[trigger] r[c]).index == ks[c] && r[c].generated == es[c] && r[c].block.tuples@
                == gs[c]@,
    ensures
        forall|c: int, k: int|
            0 <= c < r.len() && 0 <= k < r[c].block.tuples.len() ==> comes_from(
                bt,
                #[trigger] r[c].block.tuples@[k],
                r[c].index,
                op,
                ti,
            ),
        forall|c: int| 0 <= c < r.len() ==> r[c].block.wf(),
{
    assert forall|c: int, k: int|
        0 <= c < r.len() && 0 <= k < r[c].block.tuples.len() implies comes_from(
            bt,
            #[trigger] r[c].block.tuples@[k],
            r[c].index,
            op,
            ti,
        ) by {
        assert(r[c].block.tuples@[k] == gs[c]@[k]);
        let j = ss[c][k];
        assert(0 <= j < bt.len());
        assert(same_history(gs[c]@[k], stepped[j]));
        lemma_same_stepped(gs[c]@[k], stepped[j], bt[j], op, ti);
        assert(stepped_as(r[c].block.tuples@[k], bt[j], op, ti));
    }
    assert forall|c: int| 0 <= c < r.len() implies r[c].block.wf() by {
        assert forall|k: int| 0 <= k < r[c].block.tuples.len() implies (#[trigger] r[c].block.tuples@[k]).wf() by {
            assert(r[c].block.tuples@[k] == gs[c]@[k]);
            let j = ss[c][k];
            assert(same_history(gs[c]@[k], stepped[j]));
            lemma_same_stepped(gs[c]@[k], stepped[j], bt[j], op, ti);
        }
    }
}

/// The parts are non-empty, have distinct positions, and are marked when a value was new.
proof fn lemma_parts_marks(
    bt: Seq<TupleHistory>,
    op: Operation,
    ti: Seq<usize>,
    stepped: Seq<TupleHistory>,
    idx: Seq<usize>,
    ks: Seq<usize>,
    gs: Seq<Vec<TupleHistory>>,
    es: Seq<bool>,
    ss: Seq<Seq<int>>,
    r: Seq<Child>,
)
    requires
        idx.len() == bt.len(),
        forall|c: int, d: int| 0 <= c < d < ks.len() ==> ks[c] != ks[d],
        forall|j: int| 0 <= j < idx.len() ==> ks.contains(#[trigger] idx[j]),
        es.len() == ks.len(),
        gs.len() == ks.len(),
        forall|c2: int| 0 <= c2 < ks.len() ==> (#[trigger] gs[c2]).len() > 0,
        forall|c2: int|
            0 <= c2 < ks.len() ==> (#[trigger] es[c2] <==> exists|k: int|
                0 <= k < gs[c2].len() && (#[trigger] gs[c2]@[k]).has_generated),
        r.len() == ks.len(),
        forall|c: int|
            0 <= c < r.len() ==> (#[trigger] r[c]).index == ks[c] && r[c].generated == es[c] && r[c].block.tuples@
                == gs[c]@,
    ensures
        forall|c: int| 0 <= c < r.len() ==> (#[trigger] r[c]).block.tuples.len() > 0,
        forall|c: int, d: int| 0 <= c < d < r.len() ==> (#[trigger] r[c]).index != (#[trigger] r[d]).index,
        forall|c: int|
            0 <= c < r.len() ==> ((#[trigger] r[c]).generated <==> exists|k: int|
                0 <= k < r[c].block.tuples.len() && (#[trigger] r[c].block.tuples@[k]).has_generated),
        bt.len() > 0 ==> r.len() > 0,
{
    if bt.len() > 0 {
        assert(ks.contains(idx[0]));
    }
    assert forall|c2: int, d: int| 0 <= c2 < d < r.len() implies (#[trigger] r[c2]).index != (#[trigger] r[d]).index by {
        assert(r[c2].index == ks[c2]);
        assert(r[d].index == ks[d]);
    }
    assert forall|c2: int|
        0 <= c2 < r.len() implies ((#[trigger] r[c2]).generated <==> exists|k: int|
            0 <= k < r[c2].block.tuples.len() && (#[trigger] r[c2].block.tuples@[k]).has_generated) by {
        if r[c2].generated {
            let k = choose|k: int| 0 <= k < gs[c2].len() && (#[trigger] gs[c2]@[k]).has_generated;
            assert(r[c2].block.tuples@[k] == gs[c2]@[k]);
        }
        if exists|k: int| 0 <= k < r[c2].block.tuples.len() && (#[trigger] r[c2].block.tuples@[k]).has_generated {
            let k = choose|k: int| 0 <= k < r[c2].block.tuples.len() && (#[trigger] r[c2].block.tuples@[k]).has_generated;
            assert(r[c2].block.tuples@[k] == gs[c2]@[k]);
        }
    }
}

/// The non-generated parts are named by positions inside the histories.
proof fn lemma_parts_named(
    bt: Seq<TupleHistory>,
    op: Operation,
    ti: Seq<usize>,
    stepped: Seq<TupleHistory>,
    idx: Seq<usize>,
    ks: Seq<usize>,
    gs: Seq<Vec<TupleHistory>>,
    es: Seq<bool>,
    ss: Seq<Seq<int>>,
    bound: nat,
)
    requires
        stepped.len() == bt.len(),
        idx.len() == bt.len(),
        forall|j: int|
            0 <= j < bt.len() ==> stepped_as(#[trigger] stepped[j], bt[j], op, ti) && stepped[j].wf() && idx[j]
                == step_index(bt[j], op, ti),
        gs.len() == ks.len(),
        ss.len() == ks.len(),
        forall|c2: int| 0 <= c2 < ks.len() ==> (#[trigger] ss[c2]).len() == gs[c2].len(),
        forall|c2: int, k: int|
            0 <= c2 < ks.len() && 0 <= k < gs[c2].len() ==> 0 <= #[trigger] ss[c2][k] < idx.len() && idx[ss[c2][k]]
                == ks[c2] && same_history(gs[c2]@[k], stepped[ss[c2][k]]),
        es.len() == ks.len(),
        forall|j: int| 0 <= j < bt.len() ==> (#[trigger] bt[j]).wf(),
        forall|j: int| 0 <= j < bt.len() ==> (#[trigger] bt[j]).history@.len() <= bound,
        forall|c2: int| 0 <= c2 < ks.len() ==> (#[trigger] gs[c2]).len() > 0,
        forall|c2: int|
            0 <= c2 < ks.len() ==> (#[trigger] es[c2] <==> exists|k: int|
                0 <= k < gs[c2].len() && (#[trigger] gs[c2]@[k]).has_generated),
    ensures
        forall|c2: int| 0 <= c2 < ks.len() && !es[c2] ==> #[trigger] ks[c2] < bound,
{
    assert forall|c2: int| 0 <= c2 < ks.len() && !es[c2] implies #[trigger] ks[c2] < bound by {
        let j = ss[c2][0];
        assert(same_history(gs[c2]@[0], stepped[j]));
        lemma_same_stepped(gs[c2]@[0], stepped[j], bt[j], op, ti);
        assert(!gs[c2]@[0].has_generated);
        assert(stepped_as(stepped[j], bt[j], op, ti));
        reveal(stepped_as);
        lemma_hist_index_bound(bt[j], step_value(bt[j], op, ti));
    }
}

/// The parts `r` are the split of block `b` on the candidate `op` at positions `ti`,
/// whose term is `term`, with `names[i]` the term named by position `i`.
pub open spec fn is_split(r: Seq<Child>, b: Block, op: Operation, ti: Seq<usize>, term: Term, names: Seq<Term>) -> bool {
    &&& forall|j: int| 0 <= j < b.tuples.len() ==> lands_in(r, #[trigger] b.tuples@[j], op, ti)
    &&& forall|c: int, k: int|
            0 <= c < r.len() && 0 <= k < r[c].block.tuples.len() ==> comes_from(
                b.tuples@,
                #[trigger] r[c].block.tuples@[k],
                r[c].index,
                op,
                ti,
            )
    &&& forall|c: int| 0 <= c < r.len() ==> (#[trigger] r[c]).block.tuples.len() > 0 && r[c].block.wf()
    &&& forall|c: int, d: int| 0 <= c < d < r.len() ==> (#[trigger] r[c]).index != (#[trigger] r[d]).index
    &&& forall|c: int|
            0 <= c < r.len() ==> ((#[trigger] r[c]).generated <==> exists|k: int|
                0 <= k < r[c].block.tuples.len() && (#[trigger] r[c].block.tuples@[k]).has_generated)
    &&& b.tuples.len() > 0 ==> r.len() > 0
    &&& r.len() == 1 ==> formula_view(r[0].block.formula) == formula_view(b.formula)
    &&& r.len() > 1 ==> forall|c: int, ops: Seq<Operation>, env: Seq<(Seq<char>, i64)>|
            0 <= c < r.len() && !r[c].generated ==> #[trigger] sat(formula_view(r[c].block.formula), ops, env) == (sat(
                formula_view(b.formula),
                ops,
                env,
            ) && sat(telling(term, names, r[c].index as int), ops, env))
    &&& r.len() > 1 ==> forall|c: int, ops: Seq<Operation>, env: Seq<(Seq<char>, i64)>|
            0 <= c < r.len() && r[c].generated ==> #[trigger] sat(formula_view(r[c].block.formula), ops, env) == (sat(
                formula_view(b.formula),
                ops,
                env,
            ) && forall|d: int|
                0 <= d < r.len() && !r[d].generated ==> !sat(
                    telling(term, names, (#[trigger] r[d]).index as int),
                    ops,
                    env,
                ))
}

/// Applies the candidate `op` at positions `ti` (whose term is `term`) to every tuple of
/// `b` and splits `b` by the position that names the value; `names[i]` is the term named
/// by position `i`. With one part, the block keeps its formula. With several, a part
/// whose value is old for all its tuples adds that it equals its named term; a part with
/// a new value adds that the candidate equals none of the named terms of the other parts.
#[verifier::spinoff_prover]
#[verifier::rlimit(80)]
pub fn block_step(b: &Block, op: &Operation, ti: &[usize], term: &Term, names: &Vec<Term>) -> (r: Vec<Child>)
    requires
        b.wf(),
        op.wf(),
        forall|j: int| 0 <= j < b.tuples.len() ==> step_ok(#[trigger] b.tuples@[j], *op, ti@),
        forall|j: int| 0 <= j < b.tuples.len() ==> (#[trigger] b.tuples@[j]).history@.len() <= names.len(),
    ensures
        is_split(r@, *b, *op, ti@, *term, names@),
{
    let n = b.tuples.len();
    let (stepped, idx) = step_all(b, op, ti);
    let keys = distinct_keys(&idx);
    let (groups, gens, Ghost(srcs)) = group_all(&stepped, &idx, &keys);
    proof {
        lemma_parts_named(b.tuples@, *op, ti@, stepped@, idx@, keys@, groups@, gens@, srcs, names.len() as nat);
    }
    let ghost gs = groups@;
    let ghost ks = keys@;
    let ghost es = gens@;
    let r = assemble(b, keys, groups, gens, term, names);
    proof {
        lemma_parts_cover(b.tuples@, *op, ti@, stepped@, idx@, ks, gs, es, srcs, r@);
        lemma_parts_sources(b.tuples@, *op, ti@, stepped@, idx@, ks, gs, es, srcs, r@);
        lemma_parts_marks(b.tuples@, *op, ti@, stepped@, idx@, ks, gs, es, srcs, r@);
    }
    r
}

/// Builds the parts from their positions, tuples and new-value marks, with the formulas
/// that tell them apart.
fn assemble(
    b: &Block,
    keys: Vec<usize>,
    groups: Vec<Vec<TupleHistory>>,
    gens: Vec<bool>,
    term: &Term,
    names: &Vec<Term>,
) -> (r: Vec<Child>)
    requires
        keys.len() == groups.len(),
        keys.len() == gens.len(),
        forall|c: int| 0 <= c < keys.len() && !gens@[c] ==> #[trigger] keys@[c] < names.len(),
    ensures
        r.len() == keys.len(),
        forall|c: int|
            0 <= c < r.len() ==> (#[trigger] r@[c]).index == keys@[c] && r@[c].generated == gens@[c]
                && r@[c].block.tuples@ == groups@[c]@,
        r.len() == 1 ==> formula_view(r@[0].block.formula) == formula_view(b.formula),
        r.len() > 1 ==> forall|c: int, ops: Seq<Operation>, env: Seq<(Seq<char>, i64)>|
            0 <= c < r.len() && !r@[c].generated ==> #[trigger] sat(formula_view(r@[c].block.formula), ops, env) == (sat(
                formula_view(b.formula),
                ops,
                env,
            ) && sat(telling(*term, names@, r@[c].index as int), ops, env)),
        r.len() > 1 ==> forall|c: int, ops: Seq<Operation>, env: Seq<(Seq<char>, i64)>|
            0 <= c < r.len() && r@[c].generated ==> #[trigger] sat(formula_view(r@[c].block.formula), ops, env) == (sat(
                formula_view(b.formula),
                ops,
                env,
            ) && forall|d: int|
                0 <= d < r.len() && !r@[d].generated ==> !sat(
                    telling(*term, names@, (#[trigger] r@[d]).index as int),
                    ops,
                    env,
                )),
{
    let m = keys.len();
    let ghost all = groups@;
    // The conjunction of the negated telling formulas of the parts with an old value.
    let mut fneg = true_formula(None);
    let mut c: usize = 0;
    while c < m
        invariant
            c <= m,
            m == keys.len(),
            m == gens.len(),
            forall|c2: int| 0 <= c2 < m && !gens@[c2] ==> #[trigger] keys@[c2] < names.len(),
            forall|ops: Seq<Operation>, env: Seq<(Seq<char>, i64)>|
                #[trigger] sat(formula_view(fneg), ops, env) == forall|d: int|
                    0 <= d < c && !gens@[d] ==> !sat(telling(*term, names@, #[trigger] keys@[d] as int), ops, env),
        decreases m - c,
    {
        if !gens[c] {
            let fd = eq(copy_term(term), copy_term(&names[keys[c]]));
            let nfd = fd.neg();
            let ghost f0 = formula_view(fneg);
            fneg = fneg.and_formula(&nfd);
            proof {
                assert forall|ops: Seq<Operation>, env: Seq<(Seq<char>, i64)>|
                    #[trigger] sat(formula_view(fneg), ops, env) == forall|d: int|
                        0 <= d < c + 1 && !gens@[d] ==> !sat(telling(*term, names@, #[trigger] keys@[d] as int), ops, env) by {
                    law_and_formula_is_conjunction(f0, formula_view(nfd), ops, env);
                    lemma_neg_sat(formula_view(fd), ops, env);
                    assert(formula_view(fd) == telling(*term, names@, keys@[c as int] as int));
                    if sat(formula_view(fneg), ops, env) {
                        assert forall|d: int| 0 <= d < c + 1 && !gens@[d] implies !sat(telling(*term, names@, #[trigger] keys@[d] as int), ops, env) by {
                            if d < c {
                                assert(sat(f0, ops, env));
                            }
                        }
                    }
                    if forall|d: int| 0 <= d < c + 1 && !gens@[d] ==> !sat(telling(*term, names@, #[trigger] keys@[d] as int), ops, env) {
                        assert(!sat(telling(*term, names@, keys@[c as int] as int), ops, env));
                    }
                }
            }
        } else {
            proof {
                assert forall|ops: Seq<Operation>, env: Seq<(Seq<char>, i64)>|
                    #[trigger] sat(formula_view(fneg), ops, env) == forall|d: int|
                        0 <= d < c + 1 && !gens@[d] ==> !sat(telling(*term, names@, #[trigger] keys@[d] as int), ops, env) by {
                    if forall|d: int| 0 <= d < c && !gens@[d] ==> !sat(telling(*term, names@, #[trigger] keys@[d] as int), ops, env) {
                        assert forall|d: int| 0 <= d < c + 1 && !gens@[d] implies !sat(telling(*term, names@, #[trigger] keys@[d] as int), ops, env) by {
                        }
                    }
                }
            }
        }
        c += 1;
    }
    let mut groups = groups;
    let mut r: Vec<Child> = Vec::new();
    c = 0;
    while c < m
        invariant
            c <= m,
            m == keys.len(),
            m == gens.len(),
            all.len() == m,
            groups@ == all.skip(c as int),
            forall|c2: int| 0 <= c2 < m && !gens@[c2] ==> #[trigger] keys@[c2] < names.len(),
            forall|ops: Seq<Operation>, env: Seq<(Seq<char>, i64)>|
                #[trigger] sat(formula_view(fneg), ops, env) == forall|d: int|
                    0 <= d < m && !gens@[d] ==> !sat(telling(*term, names@, #[trigger] keys@[d] as int), ops, env),
            r.len() == c,
            forall|c2: int|
                0 <= c2 < c ==> (#[trigger] r@[c2]).index == keys@[c2] && r@[c2].generated == gens@[c2]
                    && r@[c2].block.tuples@ == all[c2]@,
            m == 1 ==> forall|c2: int| 0 <= c2 < c ==> formula_view((#[trigger] r@[c2]).block.formula) == formula_view(b.formula),
            m != 1 ==> forall|c2: int, ops: Seq<Operation>, env: Seq<(Seq<char>, i64)>|
                0 <= c2 < c && !gens@[c2] ==> #[trigger] sat(formula_view(r@[c2].block.formula), ops, env) == (sat(
                    formula_view(b.formula),
                    ops,
                    env,
                ) && sat(telling(*term, names@, keys@[c2] as int), ops, env)),
            m != 1 ==> forall|c2: int, ops: Seq<Operation>, env: Seq<(Seq<char>, i64)>|
                0 <= c2 < c && gens@[c2] ==> #[trigger] sat(formula_view(r@[c2].block.formula), ops, env) == (sat(
                    formula_view(b.formula),
                    ops,
                    env,
                ) && sat(formula_view(fneg), ops, env)),
        decreases m - c,
    {
        proof {
            assert(all.skip(c as int)[0] == all[c as int]);
        }
        let g = groups.remove(0);
        proof {
            assert(groups@ =~= all.skip(c + 1));
        }
        let f = if m == 1 {
            copy_formula(&b.formula)
        } else if !gens[c] {
            let fd = eq(copy_term(term), copy_term(&names[keys[c]]));
            let f = b.formula.and_formula(&fd);
            proof {
                assert forall|ops: Seq<Operation>, env: Seq<(Seq<char>, i64)>|
                    #[trigger] sat(formula_view(f), ops, env) == (sat(formula_view(b.formula), ops, env) && sat(
                        telling(*term, names@, keys@[c as int] as int),
                        ops,
                        env,
                    )) by {
                    law_and_formula_is_conjunction(formula_view(b.formula), formula_view(fd), ops, env);
                }
            }
            f
        } else {
            let f = b.formula.and_formula(&fneg);
            proof {
                assert forall|ops: Seq<Operation>, env: Seq<(Seq<char>, i64)>|
                    #[trigger] sat(formula_view(f), ops, env) == (sat(formula_view(b.formula), ops, env) && sat(
                        formula_view(fneg),
                        ops,
                        env,
                    )) by {
                    law_and_formula_is_conjunction(formula_view(b.formula), formula_view(fneg), ops, env);
                }
            }
            f
        };
        let ghost rb = r@;
        r.push(Child { block: Block { tuples: g, formula: f }, index: keys[c], generated: gens[c] });
        proof {
            assert forall|c2: int| 0 <= c2 < c + 1 implies (#[trigger] r@[c2]).index == keys@[c2] && r@[c2].generated == gens@[c2]
                && r@[c2].block.tuples@ == all[c2]@ by {
                if c2 < c {
                    assert(r@[c2] == rb[c2]);
                }
            }
            if m == 1 {
                assert forall|c2: int| 0 <= c2 < c + 1 implies formula_view((#[trigger] r@[c2]).block.formula) == formula_view(b.formula) by {
                    if c2 < c {
                        assert(r@[c2] == rb[c2]);
                    }
                }
            } else {
                assert forall|c2: int, ops: Seq<Operation>, env: Seq<(Seq<char>, i64)>|
                    0 <= c2 < c + 1 && !gens@[c2] implies #[trigger] sat(formula_view(r@[c2].block.formula), ops, env) == (sat(
                        formula_view(b.formula),
                        ops,
                        env,
                    ) && sat(telling(*term, names@, keys@[c2] as int), ops, env)) by {
                    if c2 < c {
                        assert(r@[c2] == rb[c2]);
                    }
                }
                assert forall|c2: int, ops: Seq<Operation>, env: Seq<(Seq<char>, i64)>|
                    0 <= c2 < c + 1 && gens@[c2] implies #[trigger] sat(formula_view(r@[c2].block.formula), ops, env) == (sat(
                        formula_view(b.formula),
                        ops,
                        env,
                    ) && sat(formula_view(fneg), ops, env)) by {
                    if c2 < c {
                        assert(r@[c2] == rb[c2]);
                    }
                }
            }
        }
        c += 1;
    }
    proof {
        if m > 1 {
            assert forall|c2: int, ops: Seq<Operation>, env: Seq<(Seq<char>, i64)>|
                0 <= c2 < r.len() && r@[c2].generated implies #[trigger] sat(formula_view(r@[c2].block.formula), ops, env) == (sat(
                    formula_view(b.formula),
                    ops,
                    env,
                ) && forall|d: int|
                    0 <= d < r.len() && !r@[d].generated ==> !sat(
                        telling(*term, names@, (#[trigger] r@[d]).index as int),
                        ops,
                        env,
                    )) by {
                assert(sat(formula_view(r@[c2].block.formula), ops, env) == (sat(formula_view(b.formula), ops, env) && sat(formula_view(fneg), ops, env)));
                if forall|d: int| 0 <= d < r.len() && !r@[d].generated ==> !sat(telling(*term, names@, (#[trigger] r@[d]).index as int), ops, env) {
                    assert forall|d: int| 0 <= d < m && !gens@[d] implies !sat(telling(*term, names@, #[trigger] keys@[d] as int), ops, env) by {
                        assert(r@[d].index == keys@[d]);
                    }
                }
                if sat(formula_view(fneg), ops, env) {
                    assert forall|d: int| 0 <= d < r.len() && !r@[d].generated implies !sat(telling(*term, names@, (#[trigger] r@[d]).index as int), ops, env) by {
                        assert(r@[d].index == keys@[d]);
                    }
                }
            }
        }
    }
    r
}

} // verus!
