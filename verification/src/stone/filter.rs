//! The index enumeration of candidate separators and the incremental filter over it.

use vstd::prelude::*;

use crate::stone::preserve::{
    copy_op, not_preserves_current_spec, not_preserves_sub_sq_current, op_view, ops_view, prepend_all,
    StoneOp, StoneOpV,
};
use crate::stone::report::FilterReport;
use crate::stone::sets::{contains, copy_elems, increasing, lemma_sorted_list, sorted_list};
use crate::stone::spec::{closure_spec, Elem, StoneSpec};

verus! {

/// The strictly increasing `k`-tuples over `start .. n`, in lexicographic order.
pub open spec fn combos(n: nat, k: nat, start: nat) -> Seq<Seq<Elem>>
    decreases k, 1int, 0int,
{
    if k == 0 {
        seq![Seq::<Elem>::empty()]
    } else {
        combos_from(n, k, start)
    }
}

/// The strictly increasing `k`-tuples over `x .. n` (`k > 0`), grouped by their first entry.
pub open spec fn combos_from(n: nat, k: nat, x: nat) -> Seq<Seq<Elem>>
    decreases k, 0int, n - x,
{
    if k == 0 || x >= n {
        Seq::empty()
    } else {
        prepend_all(seq![x as Elem], combos(n, (k - 1) as nat, x + 1)) + combos_from(n, k, x + 1)
    }
}

/// The injective index tuples of the enumeration.
pub open spec fn injective_spec(n: nat, k: nat) -> Seq<Seq<Elem>> {
    if k == 0 {
        seq![Seq::<Elem>::empty()]
    } else if k > n {
        Seq::empty()
    } else {
        combos(n, k, 0)
    }
}

fn combos_rec(n: usize, k: usize, start: usize, cur: &mut Vec<Elem>, out: &mut Vec<Vec<Elem>>)
    requires
        start <= n,
    ensures
        final(cur)@ == old(cur)@,
        final(out).deep_view() == old(out).deep_view() + prepend_all(old(cur)@, combos(n as nat, k as nat, start as nat)),
    decreases k,
{
    if k == 0 {
        let c = copy_elems(cur);
        let ghost before = out.deep_view();
        proof {
            assert(c.deep_view() =~= c@);
        }
        out.push(c);
        proof {
            assert(cur@ + Seq::<Elem>::empty() =~= cur@);
            assert(prepend_all(cur@, combos(n as nat, 0, start as nat)) =~= seq![cur@]);
            assert(out.deep_view() =~= before + seq![cur@]);
        }
        return;
    }
    let ghost pre = cur@;
    let ghost out0 = out.deep_view();
    let mut x: usize = start;
    proof {
        assert(out.deep_view() + prepend_all(pre, combos_from(n as nat, k as nat, start as nat)) =~= out0 + prepend_all(pre, combos(n as nat, k as nat, start as nat)));
    }
    while x < n
        invariant
            start <= x <= n,
            k > 0,
            cur@ == pre,
            out.deep_view() + prepend_all(pre, combos_from(n as nat, k as nat, x as nat)) == out0 + prepend_all(
                pre,
                combos(n as nat, k as nat, start as nat),
            ),
        decreases n - x,
    {
        let ghost mid = out.deep_view();
        cur.push(x);
        combos_rec(n, k - 1, x + 1, cur, out);
        let _ = cur.pop();
        proof {
            assert(cur@ =~= pre);
            let inner = combos((n as nat), (k - 1) as nat, (x + 1) as nat);
            assert(prepend_all(pre, prepend_all(seq![x as Elem], inner)) =~= prepend_all(pre.push(x), inner)) by {
                assert forall|i: int| 0 <= i < inner.len() implies prepend_all(pre, prepend_all(seq![x as Elem], inner))[i] == prepend_all(pre.push(x), inner)[i] by {
                    assert(pre + (seq![x as Elem] + inner[i]) =~= pre.push(x) + inner[i]);
                }
            }
            assert(prepend_all(pre, prepend_all(seq![x as Elem], inner) + combos_from(n as nat, k as nat, (x + 1) as nat))
                =~= prepend_all(pre, prepend_all(seq![x as Elem], inner)) + prepend_all(pre, combos_from(n as nat, k as nat, (x + 1) as nat)));
            assert(out.deep_view() + prepend_all(pre, combos_from(n as nat, k as nat, (x + 1) as nat)) =~= mid + prepend_all(pre, combos_from(n as nat, k as nat, x as nat)));
        }
        x += 1;
    }
    proof {
        assert(combos_from(n as nat, k as nat, n as nat) =~= Seq::<Seq<Elem>>::empty());
        assert(prepend_all(pre, Seq::<Seq<Elem>>::empty()) =~= Seq::<Seq<Elem>>::empty());
        assert(out.deep_view() =~= out0 + prepend_all(pre, combos(n as nat, k as nat, start as nat)));
    }
}

/// The strictly increasing `k`-tuples over `0 .. universe_size`, in lexicographic order.
pub fn injective_tuples(universe_size: usize, k: usize) -> (r: Vec<Vec<Elem>>)
    ensures
        r.deep_view() == injective_spec(universe_size as nat, k as nat),
{
    if k == 0 {
        let mut r: Vec<Vec<Elem>> = Vec::new();
        let e: Vec<Elem> = Vec::new();
        proof {
            assert(e.deep_view() =~= Seq::<Elem>::empty());
        }
        r.push(e);
        proof {
            assert(r.deep_view()[0] == e.deep_view());
            assert(r.deep_view() =~= seq![Seq::<Elem>::empty()]);
        }
        return r;
    }
    if k > universe_size {
        let r: Vec<Vec<Elem>> = Vec::new();
        proof {
            assert(r.deep_view() =~= Seq::<Seq<Elem>>::empty());
        }
        return r;
    }
    let mut cur: Vec<Elem> = Vec::new();
    let mut out: Vec<Vec<Elem>> = Vec::new();
    proof {
        assert(out.deep_view() =~= Seq::<Seq<Elem>>::empty());
    }
    combos_rec(universe_size, k, 0, &mut cur, &mut out);
    proof {
        let c = combos(universe_size as nat, k as nat, 0);
        assert(prepend_all(Seq::<Elem>::empty(), c) =~= c) by {
            assert forall|i: int| 0 <= i < c.len() implies prepend_all(Seq::<Elem>::empty(), c)[i] == c[i] by {
                assert(Seq::<Elem>::empty() + c[i] =~= c[i]);
            }
        }
        assert(out.deep_view() =~= c);
    }
    out
}

/// The closure sets with at least two members, in order.
pub open spec fn index_j_spec(sets: Seq<Vec<Elem>>) -> Seq<Seq<Elem>>
    decreases sets.len(),
{
    if sets.len() == 0 {
        Seq::empty()
    } else {
        let rest = index_j_spec(sets.drop_last());
        if sets.last()@.len() >= 2 {
            rest.push(sets.last()@)
        } else {
            rest
        }
    }
}

/// The domains of the candidate `g` operations: the closure sets with at least two members.
pub fn index_j(spec: &StoneSpec) -> (r: Vec<Vec<Elem>>)
    requires
        spec.wf(),
    ensures
        r.deep_view() == index_j_spec(spec.closure_sets@),
        forall|i: int| 0 <= i < r.len() ==> increasing(#[trigger] r@[i]@),
{
    let mut out: Vec<Vec<Elem>> = Vec::new();
    let mut i: usize = 0;
    proof {
        assert(spec.closure_sets@.take(0) =~= Seq::<Vec<Elem>>::empty());
        assert(out.deep_view() =~= Seq::<Seq<Elem>>::empty());
    }
    while i < spec.closure_sets.len()
        invariant
            i <= spec.closure_sets.len(),
            spec.wf(),
            out.deep_view() == index_j_spec(spec.closure_sets@.take(i as int)),
            forall|k: int| 0 <= k < out.len() ==> increasing(#[trigger] out@[k]@),
        decreases spec.closure_sets.len() - i,
    {
        proof {
            assert(spec.closure_sets@.take(i + 1).drop_last() =~= spec.closure_sets@.take(i as int));
            assert(spec.closure_sets@.take(i + 1).last() == spec.closure_sets@[i as int]);
        }
        if spec.closure_sets[i].len() >= 2 {
            let c = copy_elems(&spec.closure_sets[i]);
            let ghost before = out.deep_view();
            proof {
                assert(c.deep_view() =~= c@);
            }
            out.push(c);
            proof {
                assert(out.deep_view() =~= before.push(c@));
            }
        }
        i += 1;
    }
    proof {
        assert(spec.closure_sets@.take(spec.closure_sets.len() as int) =~= spec.closure_sets@);
    }
    out
}

/// The `f` operations for one index tuple: one per element of its closure outside the tuple.
pub open spec fn fbar_for(bar: Seq<Elem>, cl: Seq<Elem>) -> Seq<StoneOpV>
    decreases cl.len(),
{
    if cl.len() == 0 {
        Seq::empty()
    } else {
        let rest = fbar_for(bar, cl.drop_last());
        if bar.contains(cl.last()) {
            rest
        } else {
            rest.push(StoneOpV::FBar(bar, cl.last()))
        }
    }
}

/// The `f` operations for a list of index tuples.
pub open spec fn fbar_all(spec: StoneSpec, bars: Seq<Seq<Elem>>) -> Seq<StoneOpV>
    decreases bars.len(),
{
    if bars.len() == 0 {
        Seq::empty()
    } else {
        fbar_all(spec, bars.drop_last()) + fbar_for(
            bars.last(),
            sorted_list(closure_spec(spec.closure_sets@, bars.last())),
        )
    }
}

/// The candidate `f` operations for the tuple sizes below `k`.
pub open spec fn index_i_upto(spec: StoneSpec, k: nat) -> Seq<StoneOpV>
    decreases k,
{
    if k == 0 {
        Seq::empty()
    } else {
        index_i_upto(spec, (k - 1) as nat) + fbar_all(spec, injective_spec(spec.universe.len() as nat, (k - 1) as nat))
    }
}

/// The candidate `f` operations: for each injective index tuple of size below the universe
/// size, one per element of its algebraic closure outside it.
pub open spec fn index_i_spec(spec: StoneSpec) -> Seq<StoneOpV> {
    index_i_upto(spec, spec.universe.len() as nat)
}

/// The candidate `f` operations.
pub fn index_i(spec: &StoneSpec) -> (r: Vec<StoneOp>)
    requires
        spec.wf(),
    ensures
        ops_view(r@) == index_i_spec(*spec),
{
    let n = spec.universe.len();
    let mut ops: Vec<StoneOp> = Vec::new();
    let mut k: usize = 0;
    proof {
        assert(ops_view(ops@) =~= Seq::<StoneOpV>::empty());
    }
    while k < n
        invariant
            k <= n,
            n == spec.universe.len(),
            spec.wf(),
            ops_view(ops@) == index_i_upto(*spec, k as nat),
        decreases n - k,
    {
        let bars = injective_tuples(n, k);
        let ghost bv = bars.deep_view();
        let ghost base = ops_view(ops@);
        let mut t: usize = 0;
        proof {
            assert(bv.take(0) =~= Seq::<Seq<Elem>>::empty());
            assert(ops_view(ops@) =~= base + fbar_all(*spec, bv.take(0)));
        }
        while t < bars.len()
            invariant
                t <= bars.len(),
                spec.wf(),
                bv == bars.deep_view(),
                ops_view(ops@) == base + fbar_all(*spec, bv.take(t as int)),
            decreases bars.len() - t,
        {
            let bar = &bars[t];
            proof {
                assert(bv[t as int] == bar@);
                assert(bv.take(t + 1).drop_last() =~= bv.take(t as int));
                assert(bv.take(t + 1).last() == bar@);
            }
            let cbar = spec.algebraic_closure(bar.as_slice());
            proof {
                lemma_sorted_list(cbar@);
            }
            let ghost mid = ops_view(ops@);
            let mut q: usize = 0;
            proof {
                assert(ops_view(ops@) =~= mid + fbar_for(bar@, cbar@.take(0)));
            }
            while q < cbar.len()
                invariant
                    q <= cbar.len(),
                    ops_view(ops@) == mid + fbar_for(bar@, cbar@.take(q as int)),
                decreases cbar.len() - q,
            {
                let b = cbar[q];
                proof {
                    assert(cbar@.take(q + 1).drop_last() =~= cbar@.take(q as int));
                    assert(cbar@.take(q + 1).last() == b);
                }
                if !contains(bar, b) {
                    let ghost before = ops@;
                    ops.push(StoneOp::FBar { bar: copy_elems(bar), b });
                    proof {
                        assert(ops_view(ops@) =~= ops_view(before).push(StoneOpV::FBar(bar@, b)));
                    }
                }
                q += 1;
            }
            proof {
                assert(cbar@.take(cbar.len() as int) =~= cbar@);
                assert(ops_view(ops@) =~= base + fbar_all(*spec, bv.take(t + 1)));
            }
            t += 1;
        }
        proof {
            assert(bv.take(bars.len() as int) =~= bv);
        }
        k += 1;
    }
    ops
}

/// Keeps, in order, each candidate that fails on the operations kept so far.
pub open spec fn filter_fold(spec: StoneSpec, ops: Seq<StoneOpV>, cands: Seq<StoneOpV>) -> Seq<StoneOpV>
    decreases cands.len(),
{
    if cands.len() == 0 {
        ops
    } else {
        let kept = filter_fold(spec, ops, cands.drop_last());
        if not_preserves_current_spec(spec, cands.last(), kept) {
            kept.push(cands.last())
        } else {
            kept
        }
    }
}

/// The candidates of the enumeration: the `g` operations, then the `f` operations.
pub open spec fn thm32_candidates(spec: StoneSpec) -> Seq<StoneOpV> {
    index_j_spec(spec.closure_sets@).map_values(|d: Seq<Elem>| StoneOpV::GD(d)) + index_i_spec(spec)
}

/// `a + b`, saturated at `usize::MAX`.
pub open spec fn sat_add(a: nat, b: nat) -> usize {
    if a + b > usize::MAX {
        usize::MAX
    } else {
        (a + b) as usize
    }
}

/// Incremental filtering over the index enumeration: starting from the discriminator, keep each
/// candidate that fails on the current subuniverses or sub-isomorphisms.
pub fn filtering_functions(spec: &StoneSpec) -> (r: FilterReport)
    requires
        spec.wf(),
        spec.universe.len() < usize::BITS,
    ensures
        r.raw_op_count == sat_add(
            index_j_spec(spec.closure_sets@).len(),
            index_i_spec(*spec).len(),
        ),
        crate::strategy::string_views(r.operations@) == crate::stone::report::labels(
            filter_fold(*spec, seq![StoneOpV::Discriminator], thm32_candidates(*spec)),
        ),
        r.filtered_op_count == filter_fold(*spec, seq![StoneOpV::Discriminator], thm32_candidates(*spec)).len(),
{
    let mut ops: Vec<StoneOp> = Vec::new();
    ops.push(StoneOp::Discriminator);
    let js = index_j(spec);
    let is = index_i(spec);
    let ghost cands = thm32_candidates(*spec);
    let ghost gs = index_j_spec(spec.closure_sets@).map_values(|d: Seq<Elem>| StoneOpV::GD(d));
    proof {
        assert(ops_view(ops@) =~= seq![StoneOpV::Discriminator]);
        assert(cands.take(0) =~= Seq::<StoneOpV>::empty());
        assert(js.deep_view().len() == js.len());
    }
    let mut i: usize = 0;
    while i < js.len()
        invariant
            i <= js.len(),
            spec.wf(),
            spec.universe.len() < usize::BITS,
            js.deep_view() == index_j_spec(spec.closure_sets@),
            ops_view(is@) == index_i_spec(*spec),
            cands == gs + index_i_spec(*spec),
            gs == index_j_spec(spec.closure_sets@).map_values(|d: Seq<Elem>| StoneOpV::GD(d)),
            ops_view(ops@) == filter_fold(*spec, seq![StoneOpV::Discriminator], cands.take(i as int)),
        decreases js.len() - i,
    {
        let gop = StoneOp::GD { domain: copy_elems(&js[i]) };
        proof {
            assert(js.deep_view()[i as int] == js@[i as int]@);
            assert(cands.take(i + 1).drop_last() =~= cands.take(i as int));
            assert(cands.take(i + 1).last() == cands[i as int]);
            assert(cands[i as int] == gs[i as int]);
            assert(op_view(gop) == cands[i as int]);
        }
        if not_preserves_sub_sq_current(spec, &gop, &ops) {
            let ghost before = ops@;
            ops.push(gop);
            proof {
                assert(ops_view(ops@) =~= ops_view(before).push(op_view(gop)));
            }
        }
        i += 1;
    }
    let mut k: usize = 0;
    while k < is.len()
        invariant
            k <= is.len(),
            spec.wf(),
            spec.universe.len() < usize::BITS,
            js.len() == gs.len(),
            ops_view(is@) == index_i_spec(*spec),
            cands == gs + index_i_spec(*spec),
            ops_view(ops@) == filter_fold(*spec, seq![StoneOpV::Discriminator], cands.take(js.len() + k)),
        decreases is.len() - k,
    {
        let fop = copy_op(&is[k]);
        proof {
            assert(ops_view(is@)[k as int] == op_view(is@[k as int]));
            assert(cands.take(js.len() + k + 1).drop_last() =~= cands.take(js.len() + k));
            assert(cands.take(js.len() + k + 1).last() == cands[js.len() + k]);
            assert(cands[js.len() + k] == index_i_spec(*spec)[k as int]);
        }
        if not_preserves_sub_sq_current(spec, &fop, &ops) {
            let ghost before = ops@;
            ops.push(fop);
            proof {
                assert(ops_view(ops@) =~= ops_view(before).push(op_view(fop)));
            }
        }
        k += 1;
    }
    proof {
        assert(cands.take(js.len() + is.len()) =~= cands);
    }
    let raw = js.len().saturating_add(is.len());
    let filtered = ops.len();
    FilterReport::from_ops(raw, filtered, ops)
}

} // verus!
