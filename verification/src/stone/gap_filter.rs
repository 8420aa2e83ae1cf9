//! Gap-driven filtering: while the current operations have a subuniverse or a sub-isomorphism
//! that the specification does not ask for, synthesize one separating operation from it.

use vstd::prelude::*;

use crate::stone::filter::{index_i, index_i_spec, index_j, index_j_spec, sat_add};
use crate::stone::preserve::{
    current_pairs, current_sub_isos, fails_preserve_iso, lists_iso_spec, not_preserves_current_spec,
    not_preserves_sub_sq_current, op_eq, op_view, ops_view, pair_fails, realises, subuniverses_of_ops,
    subuniverses_spec, StoneOp, StoneOpV,
};
use crate::stone::report::FilterReport;
use crate::stone::sets::{contains, copy_elems, elems_eq, increasing, lemma_increasing_unique, lemma_sorted_list, sorted_list};
use crate::stone::spec::{closure_spec, Elem, PartialIso, StoneSpec};

verus! {

/// `u` is one of the closure sets.
pub open spec fn is_target_set(spec: StoneSpec, u: Seq<Elem>) -> bool {
    exists|i: int| 0 <= i < spec.closure_sets@.len() && (#[trigger] spec.closure_sets@[i])@ == u
}

/// Tells whether `u` is one of the closure sets.
fn target_has(spec: &StoneSpec, u: &Vec<Elem>) -> (r: bool)
    ensures
        r == is_target_set(*spec, u@),
{
    let mut i: usize = 0;
    while i < spec.closure_sets.len()
        invariant
            i <= spec.closure_sets.len(),
            forall|k: int| 0 <= k < i ==> (#[trigger] spec.closure_sets@[k])@ != u@,
        decreases spec.closure_sets.len() - i,
    {
        if elems_eq(&spec.closure_sets[i], u) {
            return true;
        }
        i += 1;
    }
    false
}

/// The current subuniverses that are not closure sets.
pub open spec fn extra_subs_spec(spec: StoneSpec, us: Seq<Seq<Elem>>) -> Seq<Seq<Elem>>
    decreases us.len(),
{
    if us.len() == 0 {
        Seq::empty()
    } else {
        let rest = extra_subs_spec(spec, us.drop_last());
        if is_target_set(spec, us.last()) {
            rest
        } else {
            rest.push(us.last())
        }
    }
}

/// Both partial isomorphisms have the same domain and codomain and agree on the domain.
pub open spec fn same_action_spec(phi: PartialIso, gamma: PartialIso) -> bool {
    &&& phi.dom@ == gamma.dom@
    &&& phi.cod@ == gamma.cod@
    &&& forall|i: int| 0 <= i < phi.dom@.len() ==> phi.spec_apply(#[trigger] phi.dom@[i]) == gamma.spec_apply(phi.dom@[i])
}

/// Some partial isomorphism of the specification acts as `phi`.
pub open spec fn covered(spec: StoneSpec, phi: PartialIso) -> bool {
    exists|g: int| 0 <= g < spec.sub_isos@.len() && same_action_spec(phi, #[trigger] spec.sub_isos@[g])
}

/// The partial isomorphism of the pair goes between closure sets and the specification lacks it.
pub open spec fn pair_extra(spec: StoneSpec, p: (Seq<Elem>, Seq<Elem>)) -> bool {
    forall|r: PartialIso|
        #[trigger] lists_iso_spec(p.0, p.1, r) ==> is_target_set(spec, r.dom@) && is_target_set(spec, r.cod@) && !covered(spec, r)
}

/// The current sub-isomorphisms that the specification lacks.
pub open spec fn extra_pairs(spec: StoneSpec, ps: Seq<(Seq<Elem>, Seq<Elem>)>) -> Seq<(Seq<Elem>, Seq<Elem>)>
    decreases ps.len(),
{
    if ps.len() == 0 {
        Seq::empty()
    } else {
        let rest = extra_pairs(spec, ps.drop_last());
        if pair_extra(spec, ps.last()) {
            rest.push(ps.last())
        } else {
            rest
        }
    }
}

/// First element of `c` outside `u`.
pub open spec fn first_outside(c: Seq<Elem>, u: Seq<Elem>) -> Option<Elem>
    decreases c.len(),
{
    if c.len() == 0 {
        None
    } else if !u.contains(c[0]) {
        Some(c[0])
    } else {
        first_outside(c.drop_first(), u)
    }
}

/// The `f` separator of an extra subuniverse: its least closure element outside it.
pub open spec fn sub_sep(spec: StoneSpec, u: Seq<Elem>) -> Option<StoneOpV> {
    match first_outside(sorted_list(closure_spec(spec.closure_sets@, u)), u) {
        Some(b) => Some(StoneOpV::FBar(u, b)),
        None => None,
    }
}

/// The `g` separator of an extra sub-isomorphism with domain `dom` (at least two members).
pub open spec fn iso_sep(dom: Seq<Elem>) -> Option<StoneOpV> {
    if dom.len() >= 2 {
        Some(StoneOpV::GD(dom))
    } else {
        None
    }
}

/// First useful separator of the extra subuniverses from position `k` on.
pub open spec fn first_sub_sep(spec: StoneSpec, ops: Seq<StoneOpV>, us: Seq<Seq<Elem>>, k: int) -> Option<StoneOpV>
    decreases us.len() - k,
{
    if k < 0 || k >= us.len() {
        None
    } else {
        match sub_sep(spec, us[k]) {
            Some(op) => if !ops.contains(op) && not_preserves_current_spec(spec, op, ops) {
                Some(op)
            } else {
                first_sub_sep(spec, ops, us, k + 1)
            },
            None => first_sub_sep(spec, ops, us, k + 1),
        }
    }
}

/// First useful separator of the extra sub-isomorphisms from position `k` on.
pub open spec fn first_iso_sep(spec: StoneSpec, ops: Seq<StoneOpV>, ps: Seq<(Seq<Elem>, Seq<Elem>)>, k: int) -> Option<StoneOpV>
    decreases ps.len() - k,
{
    if k < 0 || k >= ps.len() {
        None
    } else {
        match iso_sep(sorted_list(ps[k].0.to_set())) {
            Some(op) => if (not_preserves_current_spec(spec, op, ops) || pair_fails(spec.sub_isos@, op, ps[k]))
                && !ops.contains(op) {
                Some(op)
            } else {
                first_iso_sep(spec, ops, ps, k + 1)
            },
            None => first_iso_sep(spec, ops, ps, k + 1),
        }
    }
}

/// The separator that one gap step adds, if any.
pub open spec fn gap_next(spec: StoneSpec, ops: Seq<StoneOpV>) -> Option<StoneOpV> {
    match first_sub_sep(spec, ops, extra_subs_spec(spec, subuniverses_spec(spec, ops)), 0) {
        Some(op) => Some(op),
        None => first_iso_sep(spec, ops, extra_pairs(spec, current_pairs(spec, ops)), 0),
    }
}

/// The operations after at most `fuel` gap steps.
pub open spec fn gap_iter(spec: StoneSpec, ops: Seq<StoneOpV>, fuel: nat) -> Seq<StoneOpV>
    decreases fuel,
{
    if fuel == 0 {
        ops
    } else {
        match gap_next(spec, ops) {
            Some(op) => gap_iter(spec, ops.push(op), (fuel - 1) as nat),
            None => ops,
        }
    }
}

/// Tells whether the operation is already in the list.
fn ops_contain(ops: &Vec<StoneOp>, op: &StoneOp) -> (r: bool)
    ensures
        r == ops_view(ops@).contains(op_view(*op)),
{
    let mut i: usize = 0;
    while i < ops.len()
        invariant
            i <= ops.len(),
            forall|k: int| 0 <= k < i ==> ops_view(ops@)[k] != op_view(*op),
        decreases ops.len() - i,
    {
        if op_eq(&ops[i], op) {
            proof {
                assert(ops_view(ops@)[i as int] == op_view(*op));
            }
            return true;
        }
        i += 1;
    }
    false
}

/// The `f` separator of an extra subuniverse.
fn synthesize_sub_separator(spec: &StoneSpec, u: &Vec<Elem>) -> (r: Option<StoneOp>)
    requires
        spec.wf(),
    ensures
        match r {
            Some(op) => sub_sep(*spec, u@) == Some(op_view(op)),
            None => sub_sep(*spec, u@) is None,
        },
{
    let c = spec.algebraic_closure(u.as_slice());
    proof {
        lemma_sorted_list(c@);
        assert(sorted_list(closure_spec(spec.closure_sets@, u@)) == c@);
        assert(c@.skip(0) =~= c@);
    }
    let mut i: usize = 0;
    while i < c.len()
        invariant
            i <= c.len(),
            sorted_list(closure_spec(spec.closure_sets@, u@)) == c@,
            first_outside(c@, u@) == first_outside(c@.skip(i as int), u@),
        decreases c.len() - i,
    {
        proof {
            assert(c@.skip(i as int).drop_first() =~= c@.skip(i + 1));
        }
        if !contains(u, c[i]) {
            proof {
                assert(c@.skip(i as int)[0] == c@[i as int]);
                assert(first_outside(c@.skip(i as int), u@) == Some(c@[i as int]));
            }
            return Some(StoneOp::FBar { bar: copy_elems(u), b: c[i] });
        }
        i += 1;
    }
    None
}

/// Runs one gap step: appends the first useful separator, if any.
fn gap_step(spec: &StoneSpec, ops: &mut Vec<StoneOp>) -> (added: bool)
    requires
        spec.wf(),
        spec.universe.len() < usize::BITS,
    ensures
        match gap_next(*spec, ops_view(old(ops)@)) {
            Some(op) => added && ops_view(final(ops)@) == ops_view(old(ops)@).push(op),
            None => !added && ops_view(final(ops)@) == ops_view(old(ops)@),
        },
{
    let ghost o = ops_view(ops@);
    let subs = subuniverses_of_ops(spec, ops);
    let mut us: Vec<Vec<Elem>> = Vec::new();
    let mut i: usize = 0;
    proof {
        assert(subs.deep_view().take(0) =~= Seq::<Seq<Elem>>::empty());
        assert(us.deep_view() =~= Seq::<Seq<Elem>>::empty());
    }
    while i < subs.len()
        invariant
            i <= subs.len(),
            us.deep_view() == extra_subs_spec(*spec, subs.deep_view().take(i as int)),
        decreases subs.len() - i,
    {
        proof {
            assert(subs.deep_view().take(i + 1).drop_last() =~= subs.deep_view().take(i as int));
            assert(subs.deep_view().take(i + 1).last() == subs@[i as int]@);
        }
        if !target_has(spec, &subs[i]) {
            let c = copy_elems(&subs[i]);
            let ghost before = us.deep_view();
            proof {
                assert(c.deep_view() =~= c@);
            }
            us.push(c);
            proof {
                assert(us.deep_view() =~= before.push(c@));
            }
        }
        i += 1;
    }
    proof {
        assert(subs.deep_view().take(subs.len() as int) =~= subs.deep_view());
    }
    let ghost uv = us.deep_view();
    proof {
        assert(subs.deep_view() == subuniverses_spec(*spec, o));
    }
    let mut k: usize = 0;
    while k < us.len()
        invariant
            k <= us.len(),
            spec.wf(),
            spec.universe.len() < usize::BITS,
            uv == us.deep_view(),
            ops_view(ops@) == o,
            o == ops_view(old(ops)@),
            uv == extra_subs_spec(*spec, subuniverses_spec(*spec, o)),
            first_sub_sep(*spec, o, uv, 0) == first_sub_sep(*spec, o, uv, k as int),
        decreases us.len() - k,
    {
        proof {
            assert(uv[k as int] == us@[k as int]@);
        }
        match synthesize_sub_separator(spec, &us[k]) {
            Some(op) => {
                if !ops_contain(ops, &op) && not_preserves_sub_sq_current(spec, &op, ops) {
                    let ghost before = ops@;
                    proof {
                        assert(first_sub_sep(*spec, o, uv, k as int) == Some(op_view(op)));
                    }
                    ops.push(op);
                    proof {
                        assert(ops_view(ops@) =~= ops_view(before).push(op_view(op)));
                    }
                    return true;
                }
            },
            None => {},
        }
        k += 1;
    }
    proof {
        assert(first_sub_sep(*spec, o, uv, us.len() as int) is None);
    }
    let isos = current_sub_isos(spec, ops);
    let ghost ps = current_pairs(*spec, o);
    let ghost xs = extra_pairs(*spec, ps);
    let mut j: usize = 0;
    let mut idx: Vec<usize> = Vec::new();
    proof {
        assert(ps.take(0) =~= Seq::<(Seq<Elem>, Seq<Elem>)>::empty());
    }
    while j < isos.len()
        invariant
            j <= isos.len(),
            realises(isos@, ps),
            ps == current_pairs(*spec, o),
            idx@.len() == extra_pairs(*spec, ps.take(j as int)).len(),
            forall|q: int| 0 <= q < idx@.len() ==> #[trigger] idx@[q] < j && extra_pairs(*spec, ps.take(j as int))[q] == ps[idx@[q] as int],
        decreases isos.len() - j,
    {
        let phi = &isos[j];
        proof {
            assert(ps.take(j + 1).drop_last() =~= ps.take(j as int));
            assert(ps.take(j + 1).last() == ps[j as int]);
            assert(lists_iso_spec(ps[j as int].0, ps[j as int].1, isos@[j as int]));
        }
        let keep = target_has(spec, &phi.dom) && target_has(spec, &phi.cod) && !gamma_covers(spec, phi);
        proof {
            assert(keep == pair_extra(*spec, ps[j as int])) by {
                if keep {
                    assert forall|r: PartialIso| #[trigger] lists_iso_spec(ps[j as int].0, ps[j as int].1, r) implies is_target_set(*spec, r.dom@)
                        && is_target_set(*spec, r.cod@) && !covered(*spec, r) by {
                        lemma_increasing_unique(r.dom@, phi.dom@);
                        lemma_increasing_unique(r.cod@, phi.cod@);
                        assert(r.map@ == phi.map@);
                        assert forall|x: Elem| r.spec_apply(x) == phi.spec_apply(x) by {}
                        if covered(*spec, r) {
                            let g = choose|g: int| 0 <= g < spec.sub_isos@.len() && same_action_spec(r, #[trigger] spec.sub_isos@[g]);
                            assert(same_action_spec(*phi, spec.sub_isos@[g]));
                        }
                    }
                }
            }
        }
        if keep {
            let ghost before = idx@;
            idx.push(j);
            proof {
                assert forall|q: int| 0 <= q < idx@.len() implies #[trigger] idx@[q] < j + 1 && extra_pairs(*spec, ps.take(j + 1))[q] == ps[idx@[q] as int] by {
                    if q < before.len() {
                        assert(idx@[q] == before[q]);
                    }
                }
            }
        }
        j += 1;
    }
    proof {
        assert(ps.take(isos.len() as int) =~= ps);
    }
    let mut t: usize = 0;
    while t < idx.len()
        invariant
            t <= idx.len(),
            spec.wf(),
            spec.universe.len() < usize::BITS,
            realises(isos@, ps),
            ps == current_pairs(*spec, o),
            xs == extra_pairs(*spec, ps),
            ops_view(ops@) == o,
            o == ops_view(old(ops)@),
            first_sub_sep(*spec, o, uv, 0) is None,
            uv == extra_subs_spec(*spec, subuniverses_spec(*spec, o)),
            idx@.len() == xs.len(),
            forall|q: int| 0 <= q < idx@.len() ==> #[trigger] idx@[q] < isos.len() && xs[q] == ps[idx@[q] as int],
            first_iso_sep(*spec, o, xs, 0) == first_iso_sep(*spec, o, xs, t as int),
        decreases idx.len() - t,
    {
        let phi = &isos[idx[t]];
        let ghost p = xs[t as int];
        proof {
            assert(lists_iso_spec(p.0, p.1, *phi));
            assert(phi.dom@.to_set() == p.0.to_set());
            lemma_sorted_list(phi.dom@);
            assert(sorted_list(p.0.to_set()) == phi.dom@);
        }
        if phi.dom.len() >= 2 {
            let op = StoneOp::GD { domain: copy_elems(&phi.dom) };
            let np = not_preserves_sub_sq_current(spec, &op, ops);
            let fi = fails_preserve_iso(spec, &op, phi);
            let useful = np || fi;
            proof {
                assert(useful == (not_preserves_current_spec(*spec, op_view(op), o) || pair_fails(spec.sub_isos@, op_view(op), p))) by {
                    if fi {
                        assert forall|r: PartialIso| #[trigger] lists_iso_spec(p.0, p.1, r) implies crate::stone::preserve::fails_iso_spec(spec.sub_isos@, op_view(op), r) by {
                            crate::stone::preserve::lemma_realise_unique_pub(p.0, p.1, *phi, r, spec.sub_isos@);
                        }
                    }
                    if pair_fails(spec.sub_isos@, op_view(op), p) {
                        assert(crate::stone::preserve::fails_iso_spec(spec.sub_isos@, op_view(op), *phi));
                    }
                }
            }
            if useful && !ops_contain(ops, &op) {
                let ghost before = ops@;
                proof {
                    assert(first_iso_sep(*spec, o, xs, t as int) == Some(op_view(op)));
                }
                ops.push(op);
                proof {
                    assert(ops_view(ops@) =~= ops_view(before).push(op_view(op)));
                }
                return true;
            }
        }
        t += 1;
    }
    false
}

/// Some partial isomorphism of the specification acts as `phi`.
fn gamma_covers(spec: &StoneSpec, phi: &PartialIso) -> (r: bool)
    ensures
        r == covered(*spec, *phi),
{
    let mut g: usize = 0;
    while g < spec.sub_isos.len()
        invariant
            g <= spec.sub_isos.len(),
            forall|k: int| 0 <= k < g ==> !same_action_spec(*phi, #[trigger] spec.sub_isos@[k]),
        decreases spec.sub_isos.len() - g,
    {
        let gamma = &spec.sub_isos[g];
        if elems_eq(&phi.dom, &gamma.dom) && elems_eq(&phi.cod, &gamma.cod) {
            let mut same = true;
            let mut i: usize = 0;
            while i < phi.dom.len()
                invariant
                    i <= phi.dom.len(),
                    same == forall|q: int| 0 <= q < i ==> phi.spec_apply(#[trigger] phi.dom@[q]) == gamma.spec_apply(phi.dom@[q]),
                decreases phi.dom.len() - i,
            {
                if phi.apply(phi.dom[i]) != gamma.apply(phi.dom[i]) {
                    same = false;
                }
                i += 1;
            }
            if same {
                return true;
            }
        }
        g += 1;
    }
    false
}

/// Gap-driven filtering (the preferred algorithm): starting from the discriminator, add
/// separators while the current algebra has subuniverses or sub-isomorphisms beyond the
/// specification, for at most `2^min(n, 12) + 256` steps.
pub fn gap_driven_filtering(spec: &StoneSpec) -> (r: FilterReport)
    requires
        spec.wf(),
        spec.universe.len() < usize::BITS,
    ensures
        r.raw_op_count == sat_add(index_j_spec(spec.closure_sets@).len(), index_i_spec(*spec).len()),
        crate::strategy::string_views(r.operations@) == crate::stone::report::labels(
            gap_iter(
                *spec,
                seq![StoneOpV::Discriminator],
                ((1usize << (if spec.universe.len() < 12 { spec.universe.len() } else { 12 })) + 256) as nat,
            ),
        ),
        r.filtered_op_count == gap_iter(
            *spec,
            seq![StoneOpV::Discriminator],
            ((1usize << (if spec.universe.len() < 12 { spec.universe.len() } else { 12 })) + 256) as nat,
        ).len(),
{
    let mut ops: Vec<StoneOp> = Vec::new();
    ops.push(StoneOp::Discriminator);
    let n = spec.universe.len();
    let e: usize = if n < 12 {
        n
    } else {
        12
    };
    proof {
        assert(1usize << e <= 4096) by (bit_vector)
            requires
                e <= 12,
        ;
    }
    let fuel: usize = (1usize << e) + 256;
    let ghost start = seq![StoneOpV::Discriminator];
    proof {
        assert(ops_view(ops@) =~= start);
    }
    let mut s: usize = 0;
    while s < fuel
        invariant
            s <= fuel,
            spec.wf(),
            spec.universe.len() < usize::BITS,
            gap_iter(*spec, start, fuel as nat) == gap_iter(*spec, ops_view(ops@), (fuel - s) as nat),
        ensures
            ops_view(ops@) == gap_iter(*spec, start, fuel as nat),
        decreases fuel - s,
    {
        let ghost before = ops_view(ops@);
        if !gap_step(spec, &mut ops) {
            proof {
                assert(gap_iter(*spec, before, (fuel - s) as nat) == before);
            }
            break;
        }
        s += 1;
        proof {
            if s == fuel {
                assert(gap_iter(*spec, ops_view(ops@), 0) == ops_view(ops@));
            }
        }
    }
    let js = index_j(spec);
    let is = index_i(spec);
    proof {
        assert(js.deep_view().len() == js.len());
    }
    let raw = js.len().saturating_add(is.len());
    let filtered = ops.len();
    FilterReport::from_ops(raw, filtered, ops)
}

} // verus!
