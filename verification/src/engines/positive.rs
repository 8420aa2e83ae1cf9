//! Positive equality and term-diagram split (`qf_pos`): without operations,
//! tuples are told apart by their coordinate equality diagram; with operations,
//! by the equality pattern among term values up to a fixed depth.

use vstd::prelude::*;

use crate::engines::dispatch::EngineOutcome;
use crate::engines::partition::{
    all_tuples, has_nontrivial_ops, keyed_pure, keyed_split_pure, refused_error, tuples_refused, TuplePartition,
};
use crate::engines::terms::pp_type;
use crate::engines::types::{atomic_pp_type, eq_pattern, equality_pattern};
use crate::first_order::models::Model;
use crate::first_order::relops::{Operation, Relation};

verus! {

/// Depth of the term diagram when there are operations.
pub const POSITIVE_TERM_DEPTH: usize = 2;

/// Some operation has positive arity.
pub open spec fn has_ops(ops: Seq<Operation>) -> bool {
    exists|i: int| 0 <= i < ops.len() && (#[trigger] ops[i]).arity >= 1
}

/// The key of a tuple: its equality diagram, or with operations the equality
/// pattern among its term values.
pub open spec fn positive_key(ops: Seq<Operation>, row: Seq<i64>) -> Seq<u8> {
    if has_ops(ops) {
        eq_pattern(pp_type(ops, row, POSITIVE_TERM_DEPTH as nat))
    } else {
        eq_pattern(row)
    }
}

/// The target is a union of positive-diagram classes.
pub open spec fn positive_definable(model: Model, target: Relation) -> bool {
    let ts = all_tuples(model.universe@, target.arity as nat);
    keyed_pure(ts, ts.map_values(|t: Seq<i64>| positive_key(model.operations@, t)), target)
}

/// Positive split: the target is definable when no class of tuples with the
/// same key holds both a tuple in the target and one outside it.
pub fn check_positive_split(model: &Model, target: &Relation) -> (r: Result<EngineOutcome, String>)
    requires
        model.wf(),
        target.arity == 0 || model.universe.len() > 0,
    ensures
        match r {
            Ok(out) => !tuples_refused(*model, target.arity as nat) && out.definable == positive_definable(
                *model,
                *target,
            ) && out.fragment@ == "qf_pos"@ && out.engine@ == (if has_ops(model.operations@) {
                "positive_split_term_collapse"@
            } else {
                "positive_split"@
            }) && out.witness_sketch is None,
            Err(e) => tuples_refused(*model, target.arity as nat) && e@ == refused_error(*model, target.arity as nat),
        },
{
    let partition = match TuplePartition::from_model(model, target.arity) {
        Ok(p) => p,
        Err(e) => return Err(e),
    };
    let mut blocks = partition.blocks;
    let ghost bv = blocks.deep_view();
    let ghost b0 = blocks@[0];
    proof {
        assert(bv.len() == blocks.len());
        assert(bv[0] == b0.deep_view());
    }
    let tuples = blocks.pop().unwrap();
    let ghost tv = tuples.deep_view();
    proof {
        assert(tuples == b0);
        assert(tv == all_tuples(model.universe@, target.arity as nat));
    }
    let with_ops = has_nontrivial_ops(model);
    let mut keys: Vec<Vec<u8>> = Vec::new();
    let mut i: usize = 0;
    while i < tuples.len()
        invariant
            i <= tuples.len(),
            model.wf(),
            tv == tuples.deep_view(),
            with_ops == has_ops(model.operations@),
            keys.len() == i,
            forall|k: int| 0 <= k < i ==> (#[trigger] keys.deep_view()[k]) == positive_key(model.operations@, tv[k]),
        decreases tuples.len() - i,
    {
        let row = tuples[i].as_slice();
        proof {
            assert(tv[i as int] == tuples@[i as int]@);
        }
        let key = if with_ops {
            let evals = atomic_pp_type(model, row, POSITIVE_TERM_DEPTH);
            equality_pattern(evals.as_slice())
        } else {
            equality_pattern(row)
        };
        let ghost before = keys.deep_view();
        proof {
            assert(key.deep_view() =~= key@);
        }
        keys.push(key);
        proof {
            assert(keys.deep_view() =~= before.push(key@));
            assert forall|k: int| 0 <= k < i + 1 implies (#[trigger] keys.deep_view()[k]) == positive_key(
                model.operations@,
                tv[k],
            ) by {
                if k < i {
                    assert(keys.deep_view()[k] == before[k]);
                }
            }
        }
        i += 1;
    }
    proof {
        assert(keys.deep_view() =~= tv.map_values(|t: Seq<i64>| positive_key(model.operations@, t)));
    }
    let pure = keyed_split_pure(tuples, keys, target);
    if with_ops {
        Ok(EngineOutcome::basic(pure, "qf_pos", "positive_split_term_collapse"))
    } else {
        Ok(EngineOutcome::basic(pure, "qf_pos", "positive_split"))
    }
}

} // verus!
