//! Splitting the tuples of a model by a type and asking whether the target is
//! a union of classes; for first-order types, also whether an equality-only
//! witness built from the positive classes defines the target.

use vstd::prelude::*;

use crate::engines::dispatch::EngineOutcome;
use crate::engines::ktypes::{ep_key, ep_type, fo_key, fo_type, guarded_key, guarded_type};
use crate::engines::partition::{
    all_tuples, blocks_pure, keyed_pure, keyed_split_pure, refined, refused_error, tuples_refused,
    TuplePartition,
};
use crate::engines::terms::pp_type;
use crate::engines::types::{atomic_pp_type, le_bytes_all, to_le_bytes_all};
use crate::first_order::models::Model;
use crate::first_order::relops::Relation;
use crate::util::copy_tuple;

verus! {

/// A type by which tuples are split.
#[derive(Debug, Clone, Copy, PartialEq, Eq, Structural)]
pub enum KeyKind {
    /// Atomic type at a term depth.
    Pp(usize),
    /// Existential-positive type: term depth, existentials.
    Ep(usize, usize),
    /// Guarded k-type: k, number of variables.
    Guarded(usize, usize),
    /// First-order k-type: k, number of variables.
    Fo(usize, usize),
}

/// The key of a tuple under a type.
pub open spec fn kind_key(model: Model, kind: KeyKind, t: Seq<i64>) -> Seq<u8> {
    match kind {
        KeyKind::Pp(d) => le_bytes_all(pp_type(model.operations@, t, d as nat)),
        KeyKind::Ep(d, e) => ep_key(model, t, d as nat, e as nat),
        KeyKind::Guarded(k, av) => guarded_key(model, t, k as nat, av as nat),
        KeyKind::Fo(k, av) => fo_key(model, t, k as nat, av as nat),
    }
}

/// The keys of the tuples, in order.
pub open spec fn kind_keys(model: Model, kind: KeyKind, ts: Seq<Seq<i64>>) -> Seq<Seq<u8>> {
    ts.map_values(|t: Seq<i64>| kind_key(model, kind, t))
}

/// The `arity`-tuples over the universe.
pub open spec fn model_tuples(model: Model, arity: nat) -> Seq<Seq<i64>> {
    all_tuples(model.universe@, arity)
}

/// The target is a union of classes of tuples with equal keys.
pub open spec fn type_definable(model: Model, target: Relation, kind: KeyKind) -> bool {
    let ts = model_tuples(model, target.arity as nat);
    keyed_pure(ts, kind_keys(model, kind, ts), target)
}

/// Computes the key of one tuple.
pub fn kind_key_of(model: &Model, kind: KeyKind, row: &[i64]) -> (r: Vec<u8>)
    requires
        model.wf(),
    ensures
        r@ == kind_key(*model, kind, row@),
{
    match kind {
        KeyKind::Pp(d) => {
            let sig = atomic_pp_type(model, row, d);
            to_le_bytes_all(&sig)
        },
        KeyKind::Ep(d, e) => ep_type(model, row, d, e),
        KeyKind::Guarded(k, av) => guarded_type(model, row, k, av),
        KeyKind::Fo(k, av) => fo_type(model, row, k, av),
    }
}

/// Computes the keys of the tuples, in order.
pub fn type_keys(model: &Model, kind: KeyKind, tuples: &Vec<Vec<i64>>) -> (r: Vec<Vec<u8>>)
    requires
        model.wf(),
    ensures
        r.len() == tuples.len(),
        r.deep_view() == kind_keys(*model, kind, tuples.deep_view()),
{
    let ghost tv = tuples.deep_view();
    let mut keys: Vec<Vec<u8>> = Vec::new();
    let mut i: usize = 0;
    proof {
        assert(keys.deep_view() =~= kind_keys(*model, kind, tv.take(0)));
    }
    while i < tuples.len()
        invariant
            i <= tuples.len(),
            model.wf(),
            tv == tuples.deep_view(),
            keys.len() == i,
            keys.deep_view() == kind_keys(*model, kind, tv.take(i as int)),
        decreases tuples.len() - i,
    {
        proof {
            assert(tv[i as int] == tuples@[i as int]@);
        }
        let key = kind_key_of(model, kind, tuples[i].as_slice());
        let ghost before = keys.deep_view();
        proof {
            assert(key.deep_view() =~= key@);
        }
        keys.push(key);
        proof {
            assert(keys.deep_view() =~= before.push(key@));
            assert(tv.take(i + 1) =~= tv.take(i as int).push(tv[i as int]));
            assert(keys.deep_view() =~= kind_keys(*model, kind, tv.take(i + 1)));
        }
        i += 1;
    }
    proof {
        assert(tv.take(tuples.len() as int) =~= tv);
    }
    keys
}

/// Splits all `arity`-tuples of the model by a type and tells whether the
/// target is a union of classes; refused when there are too many tuples.
pub fn type_split(model: &Model, target: &Relation, kind: KeyKind, fragment: &str, engine: &str) -> (r: Result<
    EngineOutcome,
    String,
>)
    requires
        model.wf(),
        target.arity == 0 || model.universe.len() > 0,
    ensures
        match r {
            Ok(out) => !tuples_refused(*model, target.arity as nat) && out.definable == type_definable(
                *model,
                *target,
                kind,
            ) && out.fragment@ == fragment@ && out.engine@ == engine@ && out.witness_sketch is None,
            Err(e) => tuples_refused(*model, target.arity as nat) && e@ == refused_error(*model, target.arity as nat),
        },
{
    let partition = match TuplePartition::from_model(model, target.arity) {
        Ok(p) => p,
        Err(e) => return Err(e),
    };
    let mut blocks = partition.blocks;
    let ghost bv = blocks.deep_view();
    let ghost b0 = blocks@[0];
    proof {
        assert(bv.len() == blocks.len());
        assert(bv[0] == b0.deep_view());
    }
    let tuples = blocks.pop().unwrap();
    let keys = type_keys(model, kind, &tuples);
    let pure = keyed_split_pure(tuples, keys, target);
    Ok(EngineOutcome::basic(pure, fragment, engine))
}

/// Value of a signature at a position, if there is one.
pub open spec fn at(sig: Seq<i64>, i: int) -> Option<i64> {
    if 0 <= i < sig.len() {
        Some(sig[i])
    } else {
        None
    }
}

/// Every equality between positions `i < j` of `rep` holds in `sig` too.
pub open spec fn covers(rep: Seq<i64>, sig: Seq<i64>) -> bool {
    forall|i: int, j: int| 0 <= i < j < rep.len() && rep[i] == rep[j] ==> #[trigger] at(sig, i) == #[trigger] at(sig, j)
}

/// The row satisfies the equality witness of some representative.
pub open spec fn in_witness(ops: Seq<crate::first_order::relops::Operation>, reps: Seq<Seq<i64>>, row: Seq<i64>, d: nat) -> bool {
    exists|r: int| 0 <= r < reps.len() && covers(pp_type(ops, #[trigger] reps[r], d), pp_type(ops, row, d))
}

/// The witness built from the representatives holds exactly on the target's tuples.
pub open spec fn witness_defines(model: Model, target: Relation, ts: Seq<Seq<i64>>, reps: Seq<Seq<i64>>, d: nat) -> bool {
    forall|t: int| 0 <= t < ts.len() ==> in_witness(model.operations@, reps, #[trigger] ts[t], d) == target.has(ts[t])
}

/// The first tuple of each non-empty block whose first tuple is in the target.
pub open spec fn block_reps(bs: Seq<Seq<Seq<i64>>>, target: Relation) -> Seq<Seq<i64>>
    decreases bs.len(),
{
    if bs.len() == 0 {
        Seq::empty()
    } else {
        let rest = block_reps(bs.drop_last(), target);
        let b = bs.last();
        if b.len() > 0 && target.has(b[0]) {
            rest.push(b[0])
        } else {
            rest
        }
    }
}

/// The blocks of the first-order k-type split.
pub open spec fn fo_blocks(model: Model, target: Relation, k: nat) -> Seq<Seq<Seq<i64>>> {
    let ts = model_tuples(model, target.arity as nat);
    refined(seq![ts], seq![kind_keys(model, KeyKind::Fo(k as usize, target.arity), ts)])
}

/// Depth of the equality witness: the larger of arity and k.
pub open spec fn witness_depth(arity: nat, k: nat) -> nat {
    if arity >= k {
        arity
    } else {
        k
    }
}

/// First-order definability at k: the k-type split is pure for the target,
/// and the equality witness of its positive classes defines the target.
pub open spec fn fo_definable(model: Model, target: Relation, k: nat) -> bool {
    let bs = fo_blocks(model, target, k);
    blocks_pure(bs, target) && witness_defines(
        model,
        target,
        model_tuples(model, target.arity as nat),
        block_reps(bs, target),
        witness_depth(target.arity as nat, k),
    )
}

/// Every equality between positions of `rep` holds in `sig`.
fn covers_exec(rep: &Vec<i64>, sig: &Vec<i64>) -> (r: bool)
    ensures
        r == covers(rep@, sig@),
{
    let mut i: usize = 0;
    while i < rep.len()
        invariant
            i <= rep.len(),
            forall|a: int, b: int| 0 <= a < i && a < b < rep.len() && rep@[a] == rep@[b] ==> #[trigger] at(sig@, a) == #[trigger] at(sig@, b),
        decreases rep.len() - i,
    {
        let mut j: usize = i + 1;
        while j < rep.len()
            invariant
                i < rep.len(),
                i + 1 <= j <= rep.len(),
                forall|a: int, b: int| 0 <= a < i && a < b < rep.len() && rep@[a] == rep@[b] ==> #[trigger] at(sig@, a) == #[trigger] at(sig@, b),
                forall|b: int| i < b < j && rep@[i as int] == rep@[b] ==> at(sig@, i as int) == #[trigger] at(sig@, b),
            decreases rep.len() - j,
        {
            if rep[i] == rep[j] {
                let si = if i < sig.len() {
                    Some(sig[i])
                } else {
                    None
                };
                let sj = if j < sig.len() {
                    Some(sig[j])
                } else {
                    None
                };
                if si != sj {
                    proof {
                        assert(at(sig@, i as int) == si);
                        assert(at(sig@, j as int) == sj);
                    }
                    return false;
                }
            }
            j += 1;
        }
        i += 1;
    }
    true
}

/// Checks that the equality witness of the representatives holds exactly on
/// the target's tuples.
fn witness_check(model: &Model, target: &Relation, tuples: &Vec<Vec<i64>>, reps: &Vec<Vec<i64>>, d: usize) -> (r: bool)
    requires
        model.wf(),
    ensures
        r == witness_defines(*model, *target, tuples.deep_view(), reps.deep_view(), d as nat),
{
    let ghost ops = model.operations@;
    let ghost tv = tuples.deep_view();
    let ghost rv = reps.deep_view();
    let mut rep_sigs: Vec<Vec<i64>> = Vec::new();
    let mut a: usize = 0;
    while a < reps.len()
        invariant
            a <= reps.len(),
            model.wf(),
            ops == model.operations@,
            rv == reps.deep_view(),
            rep_sigs.len() == a,
            forall|x: int| 0 <= x < a ==> (#[trigger] rep_sigs@[x])@ == pp_type(ops, rv[x], d as nat),
        decreases reps.len() - a,
    {
        proof {
            assert(rv[a as int] == reps@[a as int]@);
        }
        let sig = atomic_pp_type(model, reps[a].as_slice(), d);
        rep_sigs.push(sig);
        a += 1;
    }
    let mut t: usize = 0;
    while t < tuples.len()
        invariant
            t <= tuples.len(),
            model.wf(),
            ops == model.operations@,
            tv == tuples.deep_view(),
            rv == reps.deep_view(),
            rep_sigs.len() == reps.len(),
            forall|x: int| 0 <= x < reps.len() ==> (#[trigger] rep_sigs@[x])@ == pp_type(ops, rv[x], d as nat),
            forall|x: int| 0 <= x < t ==> in_witness(ops, rv, #[trigger] tv[x], d as nat) == target.has(tv[x]),
        decreases tuples.len() - t,
    {
        proof {
            assert(tv[t as int] == tuples@[t as int]@);
        }
        let sig = atomic_pp_type(model, tuples[t].as_slice(), d);
        let mut hit = false;
        let mut a: usize = 0;
        while a < rep_sigs.len()
            invariant
                a <= rep_sigs.len(),
                rep_sigs.len() == reps.len(),
                t < tuples.len(),
                tv == tuples.deep_view(),
                sig@ == pp_type(ops, tv[t as int], d as nat),
                forall|x: int| 0 <= x < reps.len() ==> (#[trigger] rep_sigs@[x])@ == pp_type(ops, rv[x], d as nat),
                hit == exists|x: int| 0 <= x < a && covers(pp_type(ops, #[trigger] rv[x], d as nat), sig@),
            decreases rep_sigs.len() - a,
        {
            let c = covers_exec(&rep_sigs[a], &sig);
            proof {
                if c {
                    assert(covers(pp_type(ops, rv[a as int], d as nat), sig@));
                }
                if !hit && !c {
                    assert forall|x: int| 0 <= x < a + 1 implies !covers(pp_type(ops, #[trigger] rv[x], d as nat), sig@) by {
                        if x < a {
                        }
                    }
                }
            }
            hit = hit || c;
            a += 1;
        }
        let in_target = target.contains(tuples[t].as_slice());
        if hit != in_target {
            return false;
        }
        t += 1;
    }
    true
}

/// First-order split at k: the k-type classes must be pure for the target,
/// and the equality witness of the positive classes must define it.
pub fn fo_type_split(model: &Model, target: &Relation, k: usize, engine: &str) -> (r: Result<EngineOutcome, String>)
    requires
        model.wf(),
        target.arity == 0 || model.universe.len() > 0,
    ensures
        match r {
            Ok(out) => !tuples_refused(*model, target.arity as nat) && out.definable == fo_definable(
                *model,
                *target,
                k as nat,
            ) && out.fragment@ == "fo"@ && out.engine@ == engine@ && out.witness_sketch is None,
            Err(e) => tuples_refused(*model, target.arity as nat) && e@ == refused_error(*model, target.arity as nat),
        },
{
    let mut partition = match TuplePartition::from_model(model, target.arity) {
        Ok(p) => p,
        Err(e) => return Err(e),
    };
    let ghost ts = model_tuples(*model, target.arity as nat);
    let tuples = crate::engines::partition::tuples_over(&model.universe, target.arity);
    let keys = type_keys(model, KeyKind::Fo(k, target.arity), &tuples);
    let mut all_keys: Vec<Vec<Vec<u8>>> = Vec::new();
    let ghost kv = keys.deep_view();
    all_keys.push(keys);
    proof {
        assert(all_keys.deep_view() =~= seq![kv]);
        assert(partition.blocks.deep_view() == seq![ts]);
        assert(partition.blocks.deep_view().len() == partition.blocks.len());
        assert(partition.blocks.deep_view()[0] == partition.blocks@[0].deep_view());
        assert(partition.blocks@[0].len() == ts.len());
    }
    partition.refine(&all_keys);
    let ghost bs = partition.blocks.deep_view();
    proof {
        assert(bs == fo_blocks(*model, *target, k as nat));
    }
    if !partition.is_target_pure(target) {
        return Ok(EngineOutcome::basic(false, "fo", engine));
    }
    let mut reps: Vec<Vec<i64>> = Vec::new();
    let mut b: usize = 0;
    proof {
        assert(reps.deep_view() =~= block_reps(bs.take(0), *target));
    }
    while b < partition.blocks.len()
        invariant
            b <= partition.blocks.len(),
            bs == partition.blocks.deep_view(),
            reps.deep_view() == block_reps(bs.take(b as int), *target),
        decreases partition.blocks.len() - b,
    {
        let block = &partition.blocks[b];
        proof {
            assert(bs[b as int] == block.deep_view());
            assert(bs.take(b + 1).drop_last() =~= bs.take(b as int));
            assert(bs.take(b + 1).last() == bs[b as int]);
            if block.len() > 0 {
                assert(block.deep_view()[0] == block@[0]@);
            }
        }
        if block.len() > 0 && target.contains(block[0].as_slice()) {
            let rep = copy_tuple(block[0].as_slice());
            let ghost before = reps.deep_view();
            proof {
                assert(block.deep_view()[0] == block@[0]@);
                crate::util::lemma_tuple_deep_view(rep);
            }
            reps.push(rep);
            proof {
                assert(reps.deep_view() =~= before.push(rep@));
            }
        }
        b += 1;
    }
    proof {
        assert(bs.take(bs.len() as int) =~= bs);
    }
    let depth: usize = if target.arity >= k {
        target.arity
    } else {
        k
    };
    let ok = witness_check(model, target, &tuples, &reps, depth);
    Ok(EngineOutcome::basic(ok, "fo", engine))
}

} // verus!
