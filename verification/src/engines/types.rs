//! Type signatures of tuples: the atomic positive-primitive type and the
//! cost signals that choose the depth of first-order and guarded types.

use vstd::prelude::*;

use crate::engines::terms::{
    grow_terms, groups_view, is_op_groups, lemma_op_groups_unique, level, level_pairs, level_values, op_groups,
    pairs_view, pp_terms, pp_type, recs_view, sort_by_key, sort_pairs, var_records,
};
use crate::first_order::models::Model;
use crate::first_order::relops::Operation;
use crate::strategy::{sat_pow, saturating_pow};

verus! {

/// Term depth cap inside first-order neighbour signatures.
pub const FO_PP_DEPTH_CAP: usize = 2;

/// Term depth cap inside first-order neighbour signatures under explosion risk.
pub const FO_PP_DEPTH_RISK_CAP: usize = 1;

/// The atomic positive-primitive type of `row`: for each depth up to
/// `max_depth`, the values on `row` of the terms of that depth, stably ordered
/// by key. Terms grow layer by layer from the variables by the operations of
/// positive arity, taken by arity and then by name.
pub fn atomic_pp_type(model: &Model, row: &[i64], max_depth: usize) -> (r: Vec<i64>)
    requires
        model.wf(),
    ensures
        r@ == pp_type(model.operations@, row@, max_depth as nat),
{
    let groups = op_groups(&model.operations, 1);
    let ghost gv = groups_view(groups@);
    let ghost ops = model.operations@;
    let ghost lv = Seq::new(
        (max_depth + 1) as nat,
        |d: int| sort_pairs(level(pp_terms(gv, ops, row@, d as nat), d as nat)),
    );
    let mut terms = var_records(row);
    let mut sig: Vec<i64> = Vec::new();
    let mut d: usize = 0;
    proof {
        assert(sig@ =~= level_values(lv.take(0)));
    }
    loop
        invariant_except_break
            model.wf(),
            ops == model.operations@,
            gv == groups_view(groups@),
            lv == Seq::new(
                (max_depth + 1) as nat,
                |d: int| sort_pairs(level(pp_terms(gv, ops, row@, d as nat), d as nat)),
            ),
            d <= max_depth,
            recs_view(terms@) == pp_terms(gv, ops, row@, d as nat),
            forall|k: int| 0 <= k < terms.len() ==> (#[trigger] terms@[k]).1 <= d,
            sig@ == level_values(lv.take(d as int)),
        ensures
            sig@ == level_values(lv),
        decreases max_depth - d,
    {
        let lp = level_pairs(&terms, d);
        let sorted = sort_by_key(lp);
        let ghost pv = pairs_view(sorted@);
        let ghost start = sig@;
        let mut k: usize = 0;
        proof {
            assert(pv == lv[d as int]);
            assert(sig@ =~= start + pv.take(0).map_values(|p: (Seq<char>, i64)| p.1));
        }
        while k < sorted.len()
            invariant
                k <= sorted.len(),
                pv == pairs_view(sorted@),
                sig@ == start + pv.take(k as int).map_values(|p: (Seq<char>, i64)| p.1),
            decreases sorted.len() - k,
        {
            sig.push(sorted[k].1);
            k += 1;
            proof {
                assert(pv.take(k as int).map_values(|p: (Seq<char>, i64)| p.1) =~= pv.take(k - 1).map_values(
                    |p: (Seq<char>, i64)| p.1,
                ).push(pv[k - 1].1));
                assert(sig@ =~= start + pv.take(k as int).map_values(|p: (Seq<char>, i64)| p.1));
            }
        }
        proof {
            assert(lv.take(d + 1).drop_last() =~= lv.take(d as int));
            assert(pv.take(sorted.len() as int) =~= pv);
            assert(sig@ =~= level_values(lv.take(d + 1)));
        }
        if d == max_depth {
            proof {
                assert(lv.take(d + 1) =~= lv);
            }
            break;
        }
        let mut next = grow_terms(&terms, &model.operations, &groups, d);
        let ghost tv = recs_view(terms@);
        let ghost nv = recs_view(next@);
        let ghost before = terms@;
        let ghost nx = next@;
        terms.append(&mut next);
        proof {
            assert(terms@ == before + nx);
            assert(recs_view(terms@) =~= tv + nv);
            assert(pp_terms(gv, ops, row@, (d + 1) as nat) == tv + nv);
            assert forall|k: int| 0 <= k < terms.len() implies (#[trigger] terms@[k]).1 <= d + 1 by {
                if k < before.len() {
                    assert(terms@[k] == before[k]);
                } else {
                    assert(terms@[k] == nx[k - before.len()]);
                }
            }
        }
        d += 1;
    }
    proof {
        let gs = choose|gs: Seq<(Seq<char>, nat)>| is_op_groups(gs, ops);
        assert(is_op_groups(gv, ops));
        lemma_op_groups_unique(gs, gv, ops, 1);
        assert(lv =~= Seq::new(
            (max_depth + 1) as nat,
            |d: int| sort_pairs(level(pp_terms(gs, ops, row@, d as nat), d as nat)),
        ));
    }
    sig
}

/// Comparisons of coordinate `i` with the coordinates after it: 1 for equal, 0 otherwise.
pub open spec fn eq_line(row: Seq<i64>, i: int) -> Seq<u8> {
    Seq::new(
        (row.len() - i - 1) as nat,
        |t: int|
            if row[i] == row[i + 1 + t] {
                1u8
            } else {
                0u8
            },
    )
}

/// Comparison lines of the first `m` coordinates, concatenated.
pub open spec fn eq_upto(row: Seq<i64>, m: int) -> Seq<u8>
    decreases m,
{
    if m <= 0 {
        Seq::empty()
    } else {
        eq_upto(row, m - 1) + eq_line(row, m - 1)
    }
}

/// Equality pattern of a row: for each pair `i < j`, in order, 1 when the
/// coordinates are equal and 0 otherwise.
pub open spec fn eq_pattern(row: Seq<i64>) -> Seq<u8> {
    eq_upto(row, row.len() as int)
}

/// Equality pattern of a row (pairs `i < j` with equal coordinates).
pub fn equality_pattern(row: &[i64]) -> (r: Vec<u8>)
    ensures
        r@ == eq_pattern(row@),
{
    let mut out: Vec<u8> = Vec::new();
    let mut i: usize = 0;
    while i < row.len()
        invariant
            i <= row.len(),
            out@ == eq_upto(row@, i as int),
        decreases row.len() - i,
    {
        let ghost start = out@;
        let mut j: usize = i + 1;
        proof {
            assert(start + eq_line(row@, i as int).take(0) =~= start);
        }
        while j < row.len()
            invariant
                i < j <= row.len(),
                out@ == start + eq_line(row@, i as int).take(j - i - 1),
            decreases row.len() - j,
        {
            if row[i] == row[j] {
                out.push(1u8);
            } else {
                out.push(0u8);
            }
            j += 1;
            proof {
                assert(out@ =~= start + eq_line(row@, i as int).take(j - i - 1));
            }
        }
        proof {
            if j > row.len() {
                assert(false);
            }
            assert(eq_line(row@, i as int).take(j - i - 1) =~= eq_line(row@, i as int));
        }
        i += 1;
    }
    out
}

/// Little-endian bytes of a value.
pub open spec fn le_bytes(x: i64) -> Seq<u8> {
    Seq::new(8, |k: int| ((x as u64) >> ((8 * k) as u64)) as u8)
}

/// Little-endian bytes of each value, concatenated.
pub open spec fn le_bytes_all(s: Seq<i64>) -> Seq<u8>
    decreases s.len(),
{
    if s.len() == 0 {
        Seq::empty()
    } else {
        le_bytes_all(s.drop_last()) + le_bytes(s.last())
    }
}

/// The values as little-endian bytes, concatenated.
pub fn to_le_bytes_all(s: &Vec<i64>) -> (r: Vec<u8>)
    ensures
        r@ == le_bytes_all(s@),
{
    let mut out: Vec<u8> = Vec::new();
    let mut i: usize = 0;
    proof {
        assert(s@.take(0) =~= Seq::<i64>::empty());
    }
    while i < s.len()
        invariant
            i <= s.len(),
            out@ == le_bytes_all(s@.take(i as int)),
        decreases s.len() - i,
    {
        let x: u64 = s[i] as u64;
        let ghost start = out@;
        let mut k: u64 = 0;
        while k < 8
            invariant
                k <= 8,
                x == s@[i as int] as u64,
                out@ == start + le_bytes(s@[i as int]).take(k as int),
            decreases 8 - k,
        {
            out.push((x >> (8 * k)) as u8);
            k += 1;
            proof {
                assert(out@ =~= start + le_bytes(s@[i as int]).take(k as int));
            }
        }
        proof {
            assert(le_bytes(s@[i as int]).take(8) =~= le_bytes(s@[i as int]));
            assert(s@.take(i + 1).drop_last() =~= s@.take(i as int));
            assert(s@.take(i + 1).last() == s@[i as int]);
        }
        i += 1;
    }
    proof {
        assert(s@.take(s.len() as int) =~= s@);
    }
    out
}

/// Some operation has arity at least three.
pub open spec fn has_ternary_op(ops: Seq<Operation>) -> bool {
    exists|i: int| 0 <= i < ops.len() && (#[trigger] ops[i]).arity >= 3
}

/// Type computation is likely to explode: target arity at least three and an
/// operation of arity at least three.
pub fn type_explosion_risk(model: &Model, target_arity: usize) -> (r: bool)
    ensures
        r == (target_arity >= 3 && has_ternary_op(model.operations@)),
{
    if target_arity < 3 {
        return false;
    }
    let mut i: usize = 0;
    while i < model.operations.len()
        invariant
            i <= model.operations.len(),
            target_arity >= 3,
            forall|k: int| 0 <= k < i ==> (#[trigger] model.operations@[k]).arity < 3,
        decreases model.operations.len() - i,
    {
        if model.operations[i].arity >= 3 {
            proof {
                assert(model.operations@[i as int].arity >= 3);
            }
            return true;
        }
        i += 1;
    }
    false
}

/// The k chosen for first-order splitting.
pub open spec fn fo_split_k(n: nat, target_arity: nat, max_k: nat, risk: bool) -> nat {
    let bound = if max_k >= 1 { max_k } else { 1 };
    if risk {
        1
    } else {
        let power: int = if target_arity == 0 { n as int } else { sat_pow(n as u64, target_arity) as int };
        if power <= 16 && bound >= 2 {
            bound
        } else {
            1
        }
    }
}

/// Chooses k for first-order splitting: at least 1, 1 under explosion risk, the
/// full bound only on grids of at most 16 tuples.
pub fn choose_fo_split_k(model: &Model, target_arity: usize, max_k: usize) -> (r: usize)
    ensures
        r == fo_split_k(
            model.universe.len() as nat,
            target_arity as nat,
            max_k as nat,
            target_arity >= 3 && has_ternary_op(model.operations@),
        ),
{
    let bound = if max_k >= 1 {
        max_k
    } else {
        1
    };
    if type_explosion_risk(model, target_arity) {
        return 1;
    }
    let n = model.universe.len();
    let small = if target_arity == 0 {
        n <= 16
    } else {
        saturating_pow(n as u64, target_arity) <= 16
    };
    if small && bound >= 2 {
        bound
    } else {
        1
    }
}

/// The atomic type of each tuple, as little-endian bytes.
pub open spec fn pp_keys(ops: Seq<Operation>, ts: Seq<Seq<i64>>, d: nat) -> Seq<Seq<u8>> {
    ts.map_values(|t: Seq<i64>| le_bytes_all(pp_type(ops, t, d)))
}

/// The atomic type of each tuple, as little-endian bytes.
pub fn pp_byte_keys(model: &Model, tuples: &Vec<Vec<i64>>, d: usize) -> (r: Vec<Vec<u8>>)
    requires
        model.wf(),
    ensures
        r.len() == tuples.len(),
        r.deep_view() == pp_keys(model.operations@, tuples.deep_view(), d as nat),
{
    let ghost tv = tuples.deep_view();
    let mut keys: Vec<Vec<u8>> = Vec::new();
    let mut i: usize = 0;
    proof {
        assert(keys.deep_view() =~= pp_keys(model.operations@, tv.take(0), d as nat));
    }
    while i < tuples.len()
        invariant
            i <= tuples.len(),
            model.wf(),
            tv == tuples.deep_view(),
            keys.len() == i,
            keys.deep_view() == pp_keys(model.operations@, tv.take(i as int), d as nat),
        decreases tuples.len() - i,
    {
        proof {
            assert(tv[i as int] == tuples@[i as int]@);
        }
        let sig = atomic_pp_type(model, tuples[i].as_slice(), d);
        let key = to_le_bytes_all(&sig);
        let ghost before = keys.deep_view();
        proof {
            assert(key.deep_view() =~= key@);
        }
        keys.push(key);
        proof {
            assert(keys.deep_view() =~= before.push(key@));
            assert(key@ == le_bytes_all(pp_type(model.operations@, tv[i as int], d as nat)));
            assert(tv.take(i + 1) =~= tv.take(i as int).push(tv[i as int]));
        }
        i += 1;
        proof {
            assert(keys.deep_view() =~= pp_keys(model.operations@, tv.take(i as int), d as nat));
        }
    }
    proof {
        assert(tv.take(tuples.len() as int) =~= tv);
    }
    keys
}

} // verus!
