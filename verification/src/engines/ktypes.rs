//! Layered tuple types: first-order and guarded k-types, which add to the
//! atomic type of a tuple the multiset of (k-1)-types of its neighbours.

use vstd::prelude::*;
use vstd::relations::{sorted_by, total_ordering};

use crate::engines::terms::{index_tuple_list, index_tuples, lemma_index_tuples, pp_type};
use crate::engines::partition::{all_tuples, tuples_over};
use crate::engines::types::{atomic_pp_type, eq_line, eq_pattern, eq_upto, equality_pattern, le_bytes_all, to_le_bytes_all, FO_PP_DEPTH_CAP};
use crate::first_order::models::Model;
use crate::first_order::relops::Relation;
use crate::util::copy_tuple;

verus! {

/// The hash that `DefaultHasher::new()` gives to a byte vector.
pub uninterp spec fn type_hash(bytes: Seq<u8>) -> u64;

/// Hashes a byte vector with a fresh `std::collections::hash_map::DefaultHasher`
/// (`Hash::hash` on the vector, then `Hasher::finish`). A fresh `DefaultHasher`
/// has fixed keys, so equal bytes hash alike within one build; the function
/// itself is left unnamed beyond `type_hash`.
#[verifier::external_body]
fn hash_bytes(bytes: &Vec<u8>) -> (h: u64)
    ensures
        h == type_hash(bytes@),
{
    let mut hasher = std::collections::hash_map::DefaultHasher::new();
    std::hash::Hash::hash(bytes, &mut hasher);
    std::hash::Hasher::finish(&hasher)
}

/// The order `<=` on hashes.
pub open spec fn hash_leq() -> spec_fn(u64, u64) -> bool {
    |a: u64, b: u64| a <= b
}

/// Hashes in ascending order.
pub open spec fn sorted_hashes(s: Seq<u64>) -> Seq<u64> {
    s.sort_by(hash_leq())
}

/// Little-endian bytes of a hash.
pub open spec fn hash_le(x: u64) -> Seq<u8> {
    Seq::new(8, |k: int| (x >> ((8 * k) as u64)) as u8)
}

/// Little-endian bytes of each hash, concatenated.
pub open spec fn hashes_le(s: Seq<u64>) -> Seq<u8>
    decreases s.len(),
{
    if s.len() == 0 {
        Seq::empty()
    } else {
        hashes_le(s.drop_last()) + hash_le(s.last())
    }
}

proof fn lemma_hash_leq_total()
    ensures
        total_ordering(hash_leq()),
{
    assert(vstd::relations::reflexive(hash_leq()));
    assert(vstd::relations::antisymmetric(hash_leq()));
    assert(vstd::relations::transitive(hash_leq()));
    assert(vstd::relations::strongly_connected(hash_leq()));
}

/// Sorts hashes in ascending order.
fn sort_hashes(v: Vec<u64>) -> (r: Vec<u64>)
    ensures
        r@ == sorted_hashes(v@),
{
    let mut r = v;
    let ghost orig = r@;
    proof {
        broadcast use vstd::seq_lib::group_to_multiset_ensures;
    }
    let mut i: usize = 1;
    if r.len() > 1 {
        while i < r.len()
            invariant
                1 <= i <= r.len(),
                r.len() == orig.len(),
                forall|a: int, b: int| 0 <= a <= b < i ==> r@[a] <= r@[b],
                r@.to_multiset() == orig.to_multiset(),
            decreases r.len() - i,
        {
            let mut j: usize = i;
            while j > 0 && r[j - 1] > r[j]
                invariant
                    0 <= j <= i < r.len(),
                    r.len() == orig.len(),
                    r@.to_multiset() == orig.to_multiset(),
                    forall|a: int, b: int| 0 <= a <= b <= i && a != j && b != j ==> r@[a] <= r@[b],
                    forall|b: int| j < b <= i ==> r@[j as int] <= r@[b],
                decreases j,
            {
                let ghost before = r@;
                let x = r[j - 1];
                let y = r[j];
                r.set(j - 1, y);
                r.set(j, x);
                proof {
                    assert(r@ =~= before.update(j - 1, y).update(j as int, x));
                    crate::first_order::models::lemma_swap_multiset(before, j - 1, j as int);
                }
                j -= 1;
            }
            proof {
                assert forall|a: int, b: int| 0 <= a <= b < i + 1 implies r@[a] <= r@[b] by {
                    if a == j && b != j && j > 0 {
                        assert(r@[j - 1] <= r@[j as int]);
                    }
                }
            }
            i += 1;
        }
    }
    proof {
        lemma_hash_leq_total();
        assert(sorted_by(r@, hash_leq()));
        orig.lemma_sort_by_ensures(hash_leq());
        vstd::seq_lib::lemma_sorted_unique(r@, orig.sort_by(hash_leq()), hash_leq());
    }
    r
}

/// Appends the little-endian bytes of each hash.
fn push_hashes_le(out: &mut Vec<u8>, hs: &Vec<u64>)
    ensures
        final(out)@ == old(out)@ + hashes_le(hs@),
{
    let ghost start = out@;
    let mut i: usize = 0;
    proof {
        assert(hs@.take(0) =~= Seq::<u64>::empty());
        assert(out@ =~= start + hashes_le(hs@.take(0)));
    }
    while i < hs.len()
        invariant
            i <= hs.len(),
            out@ == start + hashes_le(hs@.take(i as int)),
        decreases hs.len() - i,
    {
        let x = hs[i];
        let ghost mid = out@;
        let mut k: u64 = 0;
        while k < 8
            invariant
                k <= 8,
                x == hs@[i as int],
                out@ == mid + hash_le(x).take(k as int),
            decreases 8 - k,
        {
            out.push((x >> (8 * k)) as u8);
            k += 1;
            proof {
                assert(out@ =~= mid + hash_le(x).take(k as int));
            }
        }
        proof {
            assert(hash_le(x).take(8) =~= hash_le(x));
            assert(hs@.take(i + 1).drop_last() =~= hs@.take(i as int));
            assert(hs@.take(i + 1).last() == x);
            assert(out@ =~= start + hashes_le(hs@.take(i + 1)));
        }
        i += 1;
    }
    proof {
        assert(hs@.take(hs.len() as int) =~= hs@);
    }
}

/// Coordinate `v` equals another coordinate.
pub open spec fn eq_guard(row: Seq<i64>, v: int) -> bool {
    exists|j: int| 0 <= j < row.len() && j != v && row[j] == row[v]
}

/// The coordinates of `row` picked by the indices `it`.
pub open spec fn pick(row: Seq<i64>, it: Seq<usize>) -> Seq<i64> {
    it.map_values(|j: usize| row[j as int])
}

/// Some relation of positive arity holds of coordinates of `row` that include `v`.
pub open spec fn rel_guard(rels: Seq<Relation>, row: Seq<i64>, v: int) -> bool {
    exists|r: int, t: int|
        0 <= r < rels.len() && rels[r].arity > 0 && 0 <= t < index_tuples(row.len() as usize, rels[r].arity as nat).len()
            && (#[trigger] index_tuples(row.len() as usize, rels[r].arity as nat)[t]).contains(v as usize)
            && rels[r].has(pick(row, index_tuples(row.len() as usize, rels[r].arity as nat)[t]))
}

/// An atomic guard mentions coordinate `v`: an equality with another
/// coordinate, or a relation atom over coordinates that include `v`.
pub open spec fn guard_holds(rels: Seq<Relation>, row: Seq<i64>, v: int) -> bool {
    0 <= v < row.len() && (eq_guard(row, v) || rel_guard(rels, row, v))
}

/// Changing coordinate `i` of `row` to `u` gives a guarded neighbour.
pub open spec fn guarded_step(rels: Seq<Relation>, row: Seq<i64>, i: int, u: i64) -> bool {
    0 <= i < row.len() && row[i] != u && guard_holds(rels, row.update(i, u), i)
}

/// Some relation atom over coordinates including `v` holds in `row`.
fn rel_guard_holds(model: &Model, row: &[i64], v: usize) -> (r: bool)
    requires
        v < row.len(),
    ensures
        r == rel_guard(model.relations@, row@, v as int),
{
    let ghost rels = model.relations@;
    let ghost n = row.len() as usize;
    let mut ri: usize = 0;
    while ri < model.relations.len()
        invariant
            ri <= model.relations.len(),
            rels == model.relations@,
            n == row.len(),
            v < row.len(),
            forall|r: int, t: int|
                0 <= r < ri && rels[r].arity > 0 && 0 <= t < index_tuples(n, rels[r].arity as nat).len()
                    && (#[trigger] index_tuples(n, rels[r].arity as nat)[t]).contains(v as usize)
                    ==> !rels[r].has(pick(row@, index_tuples(n, rels[r].arity as nat)[t])),
        decreases model.relations.len() - ri,
    {
        let rel = &model.relations[ri];
        if rel.arity > 0 {
            let its = index_tuple_list(row.len(), rel.arity);
            let ghost iv = its.deep_view();
            proof {
                lemma_index_tuples(n, rel.arity as nat);
            }
            let mut t: usize = 0;
            while t < its.len()
                invariant
                    t <= its.len(),
                    iv == its.deep_view(),
                    iv == index_tuples(n, rel.arity as nat),
                    n == row.len(),
                    v < row.len(),
                    ri < model.relations.len(),
                    rels == model.relations@,
                    rel == model.relations@[ri as int],
                    forall|a: int| 0 <= a < iv.len() ==> (#[trigger] iv[a]).len() == rel.arity
                        && forall|x: int| 0 <= x < rel.arity ==> iv[a][x] < n,
                    forall|a: int| 0 <= a < t && (#[trigger] iv[a]).contains(v as usize) ==> !rel.has(pick(row@, iv[a])),
                decreases its.len() - t,
            {
                let it = &its[t];
                proof {
                    assert(iv[t as int] == it@);
                }
                let mut mentions = false;
                let mut args: Vec<i64> = Vec::new();
                let mut x: usize = 0;
                while x < it.len()
                    invariant
                        x <= it.len(),
                        t < iv.len(),
                        it@ == iv[t as int],
                        it.len() == rel.arity,
                        forall|y: int| 0 <= y < it.len() ==> it@[y] < row.len(),
                        args@ == pick(row@, it@.take(x as int)),
                        mentions == it@.take(x as int).contains(v),
                    decreases it.len() - x,
                {
                    proof {
                        assert(it@.take(x + 1) =~= it@.take(x as int).push(it@[x as int]));
                    }
                    args.push(row[it[x]]);
                    let ghost pre = it@.take(x as int);
                    let ghost nxt = it@.take(x + 1);
                    if it[x] == v {
                        mentions = true;
                        proof {
                            assert(nxt[x as int] == v);
                        }
                    } else {
                        proof {
                            if nxt.contains(v) {
                                let y = choose|y: int| 0 <= y < nxt.len() && nxt[y] == v;
                                assert(y != x);
                                assert(pre[y] == nxt[y]);
                                assert(pre.contains(v));
                            }
                            if pre.contains(v) {
                                let y = choose|y: int| 0 <= y < pre.len() && pre[y] == v;
                                assert(nxt[y] == pre[y]);
                            }
                        }
                    }
                    x += 1;
                    proof {
                        assert(args@ =~= pick(row@, it@.take(x as int)));
                    }
                }
                proof {
                    assert(it@.take(it.len() as int) =~= it@);
                }
                if mentions && rel.contains(args.as_slice()) {
                    proof {
                        let ar = rels[ri as int].arity as nat;
                        assert(rels[ri as int] == *rel);
                        assert(index_tuples(row@.len() as usize, ar)[t as int].contains(v as usize));
                        assert(rels[ri as int].has(pick(row@, index_tuples(row@.len() as usize, ar)[t as int])));
                    }
                    return true;
                }
                t += 1;
            }
        }
        ri += 1;
    }
    false
}

/// Coordinate `v` of `row` is mentioned by an atomic guard.
fn guard_holds_at(model: &Model, row: &[i64], v: usize) -> (r: bool)
    ensures
        r == guard_holds(model.relations@, row@, v as int),
{
    if v >= row.len() {
        return false;
    }
    let mut j: usize = 0;
    while j < row.len()
        invariant
            j <= row.len(),
            v < row.len(),
            forall|k: int| 0 <= k < j && k != v ==> row@[k] != row@[v as int],
        decreases row.len() - j,
    {
        if j != v && row[v] == row[j] {
            return true;
        }
        j += 1;
    }
    rel_guard_holds(model, row, v)
}

/// Changing coordinate `coord` to `value` gives a guarded neighbour: the value
/// differs and an atomic guard mentions the changed coordinate.
pub fn is_guarded_neighbour(model: &Model, row: &[i64], coord: usize, value: i64, guard_depth: usize) -> (r: bool)
    ensures
        r == guarded_step(model.relations@, row@, coord as int, value),
{
    if coord >= row.len() || row[coord] == value {
        return false;
    }
    let mut neighbour = copy_tuple(row);
    neighbour.set(coord, value);
    guard_holds_at(model, neighbour.as_slice(), coord)
}

/// Changing coordinate `i` of `row` to `u` is a step of the type: any change
/// for first-order types, a guarded one for guarded types.
pub open spec fn nb_step(rels: Seq<Relation>, row: Seq<i64>, i: int, u: i64, guarded: bool) -> bool {
    if guarded {
        guarded_step(rels, row, i, u)
    } else {
        0 <= i < row.len() && row[i] != u
    }
}

/// The neighbours of `row` along coordinate `i`, over the values `univ` in order.
pub open spec fn coord_nbrs(rels: Seq<Relation>, univ: Seq<i64>, row: Seq<i64>, i: int, guarded: bool) -> Seq<Seq<i64>>
    decreases univ.len(),
{
    if univ.len() == 0 {
        Seq::empty()
    } else {
        let rest = coord_nbrs(rels, univ.drop_last(), row, i, guarded);
        if nb_step(rels, row, i, univ.last(), guarded) {
            rest.push(row.update(i, univ.last()))
        } else {
            rest
        }
    }
}

/// The neighbours of `row` along its first `m` coordinates, coordinate by coordinate.
pub open spec fn nbrs(rels: Seq<Relation>, univ: Seq<i64>, row: Seq<i64>, m: int, guarded: bool) -> Seq<Seq<i64>>
    decreases m,
{
    if m <= 0 {
        Seq::empty()
    } else {
        nbrs(rels, univ, row, m - 1, guarded) + coord_nbrs(rels, univ, row, m - 1, guarded)
    }
}

/// The layered k-type of `row`: for k = 0 the atomic type at depth `d` as
/// bytes; above it the (k-1)-type followed by the hashes of the (k-1)-types of
/// all neighbours, in ascending order, as bytes.
pub open spec fn layered_key(model: Model, row: Seq<i64>, k: nat, d: nat, guarded: bool) -> Seq<u8>
    decreases k, 0nat,
{
    if k == 0 {
        le_bytes_all(pp_type(model.operations@, row, d))
    } else {
        layered_key(model, row, (k - 1) as nat, d, guarded) + hashes_le(
            sorted_hashes(
                key_hashes(
                    model,
                    nbrs(model.relations@, model.universe@, row, row.len() as int, guarded),
                    (k - 1) as nat,
                    d,
                    guarded,
                ),
            ),
        )
    }
}

/// The hashes of the layered k-types of the tuples `ts`, in order.
pub open spec fn key_hashes(model: Model, ts: Seq<Seq<i64>>, k: nat, d: nat, guarded: bool) -> Seq<u64>
    decreases k, ts.len(),
{
    if ts.len() == 0 {
        Seq::empty()
    } else {
        key_hashes(model, ts.drop_last(), k, d, guarded).push(type_hash(layered_key(model, ts.last(), k, d, guarded)))
    }
}

/// Term depth of the atomic part of first-order types: the cap, lowered under
/// explosion risk.
pub open spec fn fo_depth(model: Model, arity_vars: nat) -> nat {
    let base: nat = if arity_vars >= 2 { arity_vars } else { 2 };
    let base: nat = if base <= FO_PP_DEPTH_CAP { base } else { FO_PP_DEPTH_CAP as nat };
    if arity_vars >= 3 && crate::engines::types::has_ternary_op(model.operations@) {
        if base <= crate::engines::types::FO_PP_DEPTH_RISK_CAP { base } else { crate::engines::types::FO_PP_DEPTH_RISK_CAP as nat }
    } else {
        base
    }
}

/// Term depth of the atomic part of guarded types.
pub open spec fn guarded_depth(arity_vars: nat) -> nat {
    if arity_vars >= FO_PP_DEPTH_CAP { arity_vars } else { FO_PP_DEPTH_CAP as nat }
}

/// The first-order k-type: neighbours are all one-coordinate changes.
pub open spec fn fo_key(model: Model, row: Seq<i64>, k: nat, arity_vars: nat) -> Seq<u8> {
    layered_key(model, row, k, fo_depth(model, arity_vars), false)
}

/// The guarded k-type: neighbours are the guarded one-coordinate changes.
pub open spec fn guarded_key(model: Model, row: Seq<i64>, k: nat, arity_vars: nat) -> Seq<u8> {
    layered_key(model, row, k, guarded_depth(arity_vars), true)
}

/// Computes the layered k-type of `row`.
fn layered_type(model: &Model, row: &[i64], k: usize, d: usize, guarded: bool) -> (r: Vec<u8>)
    requires
        model.wf(),
    ensures
        r@ == layered_key(*model, row@, k as nat, d as nat, guarded),
    decreases k,
{
    if k == 0 {
        let sig = atomic_pp_type(model, row, d);
        return to_le_bytes_all(&sig);
    }
    let mut out = layered_type(model, row, k - 1, d, guarded);
    let ghost prev = out@;
    let ghost rels = model.relations@;
    let ghost univ = model.universe@;
    let ghost km = (k - 1) as nat;
    let mut hs: Vec<u64> = Vec::new();
    let mut i: usize = 0;
    proof {
        assert(hs@ =~= key_hashes(*model, nbrs(rels, univ, row@, 0, guarded), km, d as nat, guarded));
    }
    while i < row.len()
        invariant
            i <= row.len(),
            model.wf(),
            k >= 1,
            km == k - 1,
            rels == model.relations@,
            univ == model.universe@,
            hs@ == key_hashes(*model, nbrs(rels, univ, row@, i as int, guarded), km, d as nat, guarded),
        decreases row.len() - i,
    {
        let ghost base = nbrs(rels, univ, row@, i as int, guarded);
        let mut j: usize = 0;
        proof {
            assert(univ.take(0) =~= Seq::<i64>::empty());
            assert(base + coord_nbrs(rels, univ.take(0), row@, i as int, guarded) =~= base);
        }
        while j < model.universe.len()
            invariant
                j <= model.universe.len(),
                i < row.len(),
                model.wf(),
                k >= 1,
                km == k - 1,
                rels == model.relations@,
                univ == model.universe@,
                base == nbrs(rels, univ, row@, i as int, guarded),
                hs@ == key_hashes(
                    *model,
                    base + coord_nbrs(rels, univ.take(j as int), row@, i as int, guarded),
                    km,
                    d as nat,
                    guarded,
                ),
            decreases model.universe.len() - j,
        {
            let u = model.universe[j];
            let ghost pre = coord_nbrs(rels, univ.take(j as int), row@, i as int, guarded);
            proof {
                assert(univ.take(j + 1).drop_last() =~= univ.take(j as int));
                assert(univ.take(j + 1).last() == u);
            }
            let step = if guarded {
                is_guarded_neighbour(model, row, i, u, d)
            } else {
                row[i] != u
            };
            if step {
                let mut nb = copy_tuple(row);
                nb.set(i, u);
                let nt = layered_type(model, nb.as_slice(), k - 1, d, guarded);
                let h = hash_bytes(&nt);
                let ghost before = hs@;
                hs.push(h);
                proof {
                    assert(nb@ == row@.update(i as int, u));
                    assert((base + pre).push(nb@) =~= base + pre.push(nb@));
                    assert((base + pre.push(nb@)).drop_last() =~= base + pre);
                }
            }
            j += 1;
        }
        proof {
            assert(univ.take(univ.len() as int) =~= univ);
        }
        i += 1;
    }
    let ghost all = hs@;
    let sorted = sort_hashes(hs);
    push_hashes_le(&mut out, &sorted);
    proof {
        assert(sorted@ == sorted_hashes(all));
    }
    out
}

/// The first-order k-type of `row` over `arity_vars` variables.
pub fn fo_type(model: &Model, row: &[i64], k: usize, arity_vars: usize) -> (r: Vec<u8>)
    requires
        model.wf(),
    ensures
        r@ == fo_key(*model, row@, k as nat, arity_vars as nat),
{
    let base: usize = if arity_vars >= 2 {
        arity_vars
    } else {
        2
    };
    let base: usize = if base <= FO_PP_DEPTH_CAP {
        base
    } else {
        FO_PP_DEPTH_CAP
    };
    let d: usize = if crate::engines::types::type_explosion_risk(model, arity_vars) {
        if base <= crate::engines::types::FO_PP_DEPTH_RISK_CAP {
            base
        } else {
            crate::engines::types::FO_PP_DEPTH_RISK_CAP
        }
    } else {
        base
    };
    layered_type(model, row, k, d, false)
}

/// The guarded k-type of `row` over `arity_vars` variables.
pub fn guarded_type(model: &Model, row: &[i64], k: usize, arity_vars: usize) -> (r: Vec<u8>)
    requires
        model.wf(),
    ensures
        r@ == guarded_key(*model, row@, k as nat, arity_vars as nat),
{
    let d: usize = if arity_vars >= FO_PP_DEPTH_CAP {
        arity_vars
    } else {
        FO_PP_DEPTH_CAP
    };
    layered_type(model, row, k, d, true)
}

/// Lexicographic order on byte strings, a proper prefix coming first.
pub open spec fn bytes_le(a: Seq<u8>, b: Seq<u8>) -> bool
    decreases a.len(),
{
    if a.len() == 0 {
        true
    } else if b.len() == 0 {
        false
    } else if a[0] != b[0] {
        a[0] < b[0]
    } else {
        bytes_le(a.drop_first(), b.drop_first())
    }
}

/// The lexicographic order as a relation.
pub open spec fn bytes_leq() -> spec_fn(Seq<u8>, Seq<u8>) -> bool {
    |a: Seq<u8>, b: Seq<u8>| bytes_le(a, b)
}

proof fn lemma_bytes_le_props(a: Seq<u8>, b: Seq<u8>, c: Seq<u8>)
    ensures
        bytes_le(a, a),
        bytes_le(a, b) || bytes_le(b, a),
        bytes_le(a, b) && bytes_le(b, a) ==> a =~= b,
        bytes_le(a, b) && bytes_le(b, c) ==> bytes_le(a, c),
    decreases a.len(),
{
    if a.len() > 0 {
        lemma_bytes_le_props(a.drop_first(), a.drop_first(), a.drop_first());
        if b.len() > 0 {
            if c.len() > 0 {
                lemma_bytes_le_props(a.drop_first(), b.drop_first(), c.drop_first());
            } else {
                lemma_bytes_le_props(a.drop_first(), b.drop_first(), c);
            }
            if a[0] == b[0] && bytes_le(a, b) && bytes_le(b, a) {
                assert(a.drop_first() =~= b.drop_first());
                assert(a =~= seq![a[0]] + a.drop_first());
                assert(b =~= seq![b[0]] + b.drop_first());
            }
        }
    }
}

proof fn lemma_bytes_leq_total()
    ensures
        total_ordering(bytes_leq()),
{
    assert forall|a: Seq<u8>| #[trigger] bytes_leq()(a, a) by {
        lemma_bytes_le_props(a, a, a);
    }
    assert forall|a: Seq<u8>, b: Seq<u8>| #[trigger] bytes_leq()(a, b) && #[trigger] bytes_leq()(b, a) implies a == b by {
        lemma_bytes_le_props(a, b, b);
    }
    assert forall|a: Seq<u8>, b: Seq<u8>, c: Seq<u8>| #[trigger] bytes_leq()(a, b) && #[trigger] bytes_leq()(b, c) implies bytes_leq()(a, c) by {
        lemma_bytes_le_props(a, b, c);
    }
    assert forall|a: Seq<u8>, b: Seq<u8>| #[trigger] bytes_leq()(a, b) || #[trigger] bytes_leq()(b, a) by {
        lemma_bytes_le_props(a, b, b);
    }
}

/// Compares byte strings lexicographically.
fn bytes_le_exec(a: &Vec<u8>, b: &Vec<u8>) -> (r: bool)
    ensures
        r == bytes_le(a@, b@),
{
    let mut i: usize = 0;
    proof {
        assert(a@.skip(0) =~= a@);
        assert(b@.skip(0) =~= b@);
    }
    while i < a.len() && i < b.len()
        invariant
            i <= a.len(),
            i <= b.len(),
            forall|x: int| 0 <= x < i ==> a@[x] == b@[x],
            bytes_le(a@, b@) == bytes_le(a@.skip(i as int), b@.skip(i as int)),
        decreases a.len() - i,
    {
        if a[i] != b[i] {
            proof {
                assert(a@.skip(i as int)[0] == a@[i as int]);
                assert(b@.skip(i as int)[0] == b@[i as int]);
            }
            return a[i] < b[i];
        }
        proof {
            assert(a@.skip(i as int).drop_first() =~= a@.skip(i + 1));
            assert(b@.skip(i as int).drop_first() =~= b@.skip(i + 1));
        }
        i += 1;
    }
    i == a.len()
}

/// Byte strings in ascending lexicographic order.
pub open spec fn sorted_bytes(s: Seq<Seq<u8>>) -> Seq<Seq<u8>> {
    s.sort_by(bytes_leq())
}

/// Sorts byte strings lexicographically.
fn sort_bytes(v: Vec<Vec<u8>>) -> (r: Vec<Vec<u8>>)
    ensures
        r.deep_view() == sorted_bytes(v.deep_view()),
{
    let mut r = v;
    let ghost orig = r.deep_view();
    proof {
        broadcast use vstd::seq_lib::group_to_multiset_ensures;
        lemma_bytes_leq_total();
    }
    let ghost leq = bytes_leq();
    let mut i: usize = 1;
    if r.len() > 1 {
        proof {
            lemma_bytes_le_props(r.deep_view()[0], r.deep_view()[0], r.deep_view()[0]);
        }
        while i < r.len()
            invariant
                1 <= i <= r.len(),
                r.len() == orig.len(),
                leq == bytes_leq(),
                total_ordering(leq),
                forall|a: int, b: int| 0 <= a <= b < i ==> bytes_le(r.deep_view()[a], r.deep_view()[b]),
                r.deep_view().to_multiset() == orig.to_multiset(),
            decreases r.len() - i,
        {
            let mut j: usize = i;
            loop
                invariant
                    0 <= j <= i < r.len(),
                    r.len() == orig.len(),
                    leq == bytes_leq(),
                    total_ordering(leq),
                    r.deep_view().to_multiset() == orig.to_multiset(),
                    forall|a: int, b: int| 0 <= a <= b <= i && a != j && b != j ==> bytes_le(r.deep_view()[a], r.deep_view()[b]),
                    forall|b: int| j < b <= i ==> bytes_le(r.deep_view()[j as int], r.deep_view()[b]),
                ensures
                    j == 0,
                    r.len() == orig.len(),
                    r.deep_view().to_multiset() == orig.to_multiset(),
                    forall|a: int, b: int| 0 < a <= b <= i ==> bytes_le(r.deep_view()[a], r.deep_view()[b]),
                    forall|b: int| 0 < b <= i ==> bytes_le(r.deep_view()[0], r.deep_view()[b]),
                decreases j,
            {
                if j == 0 {
                    break;
                }
                if bytes_le_exec(&r[j - 1], &r[j]) {
                    proof {
                        assert(r.deep_view()[j - 1] == r@[j - 1]@);
                        assert(r.deep_view()[j as int] == r@[j as int]@);
                        assert forall|a: int, b: int| 0 <= a <= b <= i implies bytes_le(r.deep_view()[a], r.deep_view()[b]) by {
                            lemma_bytes_le_props(r.deep_view()[a], r.deep_view()[j as int], r.deep_view()[b]);
                            lemma_bytes_le_props(r.deep_view()[a], r.deep_view()[j - 1], r.deep_view()[j as int]);
                            lemma_bytes_le_props(r.deep_view()[a], r.deep_view()[a], r.deep_view()[a]);
                            if a < j - 1 && b == j {
                                assert(bytes_le(r.deep_view()[a], r.deep_view()[j - 1]));
                            }
                        }
                        assert forall|b: int| j < b <= i implies bytes_le(r.deep_view()[j as int], r.deep_view()[b]) by {}
                    }
                    j = 0;
                    break;
                }
                let ghost before = r.deep_view();
                proof {
                    assert(before[j - 1] == r@[j - 1]@);
                    assert(before[j as int] == r@[j as int]@);
                    lemma_bytes_le_props(before[j - 1], before[j as int], before[j as int]);
                }
                let x = r.remove(j - 1);
                r.insert(j, x);
                proof {
                    assert(r.deep_view() =~= before.update(j - 1, before[j as int]).update(j as int, before[j - 1]));
                    crate::first_order::models::lemma_swap_multiset(before, j - 1, j as int);
                    assert forall|b: int| j - 1 < b <= i implies bytes_le(r.deep_view()[j - 1], #[trigger] r.deep_view()[b]) by {
                        if b > j {
                            lemma_bytes_le_props(before[j as int], before[j - 1], before[b]);
                        }
                    }
                }
                j -= 1;
            }
            proof {
                assert forall|a: int, b: int| 0 <= a <= b < i + 1 implies bytes_le(r.deep_view()[a], r.deep_view()[b]) by {
                    lemma_bytes_le_props(r.deep_view()[a], r.deep_view()[a], r.deep_view()[a]);
                }
            }
            i += 1;
        }
    }
    proof {
        lemma_bytes_leq_total();
        assert(sorted_by(r.deep_view(), bytes_leq())) by {
            assert forall|a: int, b: int| 0 <= a < b < r.deep_view().len() implies #[trigger] bytes_leq()(r.deep_view()[a], r.deep_view()[b]) by {}
        }
        orig.lemma_sort_by_ensures(bytes_leq());
        vstd::seq_lib::lemma_sorted_unique(r.deep_view(), orig.sort_by(bytes_leq()), bytes_leq());
    }
    r
}

/// The matrix of an existential-positive type: the equality pattern of the
/// row when there are no operations, else its atomic type as bytes.
pub open spec fn ep_matrix(model: Model, row: Seq<i64>, d: nat) -> Seq<u8> {
    if model.operations.len() == 0 {
        eq_pattern(row)
    } else {
        le_bytes_all(pp_type(model.operations@, row, d))
    }
}

/// Matrices of the extensions of `row` by 1 to `m` further elements, by
/// length and then in enumeration order.
pub open spec fn ep_exts(model: Model, row: Seq<i64>, d: nat, m: nat) -> Seq<Seq<u8>>
    decreases m,
{
    if m == 0 {
        Seq::empty()
    } else {
        ep_exts(model, row, d, (m - 1) as nat) + all_tuples(model.universe@, m).map_values(
            |x: Seq<i64>| ep_matrix(model, row + x, d),
        )
    }
}

/// Little-endian bytes of a 32-bit length.
pub open spec fn u32_le(x: u32) -> Seq<u8> {
    Seq::new(4, |k: int| (x >> ((8 * k) as u32)) as u8)
}

/// Each byte string preceded by its length as four little-endian bytes.
pub open spec fn framed(s: Seq<Seq<u8>>) -> Seq<u8>
    decreases s.len(),
{
    if s.len() == 0 {
        Seq::empty()
    } else {
        framed(s.drop_last()) + u32_le(s.last().len() as u32) + s.last()
    }
}

/// The existential-positive type of `row`: its matrix, and with existentials
/// a separator byte 0xff followed by the matrices of all extensions by at most
/// `e` elements, in ascending order, each framed by its length.
pub open spec fn ep_key(model: Model, row: Seq<i64>, d: nat, e: nat) -> Seq<u8> {
    if e == 0 {
        ep_matrix(model, row, d)
    } else {
        ep_matrix(model, row, d).push(0xffu8) + framed(sorted_bytes(ep_exts(model, row, d, e)))
    }
}

/// The matrix of the existential-positive type of `row`.
fn ep_matrix_type(model: &Model, row: &[i64], d: usize) -> (r: Vec<u8>)
    requires
        model.wf(),
    ensures
        r@ == ep_matrix(*model, row@, d as nat),
{
    if model.operations.len() == 0 {
        equality_pattern(row)
    } else {
        let sig = atomic_pp_type(model, row, d);
        to_le_bytes_all(&sig)
    }
}

/// Appends each byte string framed by its length.
fn push_framed(out: &mut Vec<u8>, exts: &Vec<Vec<u8>>)
    ensures
        final(out)@ == old(out)@ + framed(exts.deep_view()),
{
    let ghost start = out@;
    let ghost ev = exts.deep_view();
    let mut i: usize = 0;
    proof {
        assert(ev.take(0) =~= Seq::<Seq<u8>>::empty());
        assert(out@ =~= start + framed(ev.take(0)));
    }
    while i < exts.len()
        invariant
            i <= exts.len(),
            ev == exts.deep_view(),
            out@ == start + framed(ev.take(i as int)),
        decreases exts.len() - i,
    {
        let ext = &exts[i];
        proof {
            assert(ev[i as int] == ext@);
        }
        let n: u32 = ext.len() as u32;
        let ghost mid = out@;
        let mut k: u32 = 0;
        while k < 4
            invariant
                k <= 4,
                out@ == mid + u32_le(n).take(k as int),
            decreases 4 - k,
        {
            out.push((n >> (8 * k)) as u8);
            k += 1;
            proof {
                assert(out@ =~= mid + u32_le(n).take(k as int));
            }
        }
        let ghost mid2 = out@;
        let mut b: usize = 0;
        while b < ext.len()
            invariant
                b <= ext.len(),
                out@ == mid2 + ext@.take(b as int),
            decreases ext.len() - b,
        {
            out.push(ext[b]);
            b += 1;
            proof {
                assert(out@ =~= mid2 + ext@.take(b as int));
            }
        }
        proof {
            assert(u32_le(n).take(4) =~= u32_le(n));
            assert(ext@.take(ext.len() as int) =~= ext@);
            assert(ev.take(i + 1).drop_last() =~= ev.take(i as int));
            assert(ev.take(i + 1).last() == ext@);
            assert(out@ =~= start + framed(ev.take(i + 1)));
        }
        i += 1;
    }
    proof {
        assert(ev.take(exts.len() as int) =~= ev);
    }
}

/// The existential-positive type of `row`: matrix at term depth `max_depth`
/// and extensions by at most `max_existentials` elements.
pub fn ep_type(model: &Model, row: &[i64], max_depth: usize, max_existentials: usize) -> (r: Vec<u8>)
    requires
        model.wf(),
    ensures
        r@ == ep_key(*model, row@, max_depth as nat, max_existentials as nat),
{
    let base = ep_matrix_type(model, row, max_depth);
    if max_existentials == 0 {
        return base;
    }
    let ghost d = max_depth as nat;
    let mut exts: Vec<Vec<u8>> = Vec::new();
    let mut m: usize = 0;
    proof {
        assert(exts.deep_view() =~= ep_exts(*model, row@, d, 0));
    }
    while m < max_existentials
        invariant
            m <= max_existentials,
            model.wf(),
            d == max_depth,
            exts.deep_view() == ep_exts(*model, row@, d, m as nat),
        decreases max_existentials - m,
    {
        let ts = tuples_over(&model.universe, m + 1);
        let ghost tv = ts.deep_view();
        let ghost start = exts.deep_view();
        let ghost fm = |x: Seq<i64>| ep_matrix(*model, row@ + x, d);
        let mut t: usize = 0;
        proof {
            assert(start + tv.take(0).map_values(fm) =~= start);
        }
        while t < ts.len()
            invariant
                t <= ts.len(),
                model.wf(),
                d == max_depth,
                tv == ts.deep_view(),
                fm == |x: Seq<i64>| ep_matrix(*model, row@ + x, d),
                exts.deep_view() == start + tv.take(t as int).map_values(fm),
            decreases ts.len() - t,
        {
            let mut ext = copy_tuple(row);
            let x = &ts[t];
            proof {
                assert(tv[t as int] == x@);
            }
            let mut c: usize = 0;
            let ghost rowv = ext@;
            while c < x.len()
                invariant
                    c <= x.len(),
                    ext@ == rowv + x@.take(c as int),
                decreases x.len() - c,
            {
                ext.push(x[c]);
                c += 1;
                proof {
                    assert(ext@ =~= rowv + x@.take(c as int));
                }
            }
            proof {
                assert(x@.take(x.len() as int) =~= x@);
            }
            let mx = ep_matrix_type(model, ext.as_slice(), max_depth);
            let ghost before = exts.deep_view();
            proof {
                assert(mx.deep_view() =~= mx@);
            }
            exts.push(mx);
            proof {
                assert(exts.deep_view() =~= before.push(mx@));
                assert(tv.take(t + 1) =~= tv.take(t as int).push(tv[t as int]));
                assert(tv.take(t + 1).map_values(fm) =~= tv.take(t as int).map_values(fm).push(fm(tv[t as int])));
                assert(exts.deep_view() =~= start + tv.take(t + 1).map_values(fm));
            }
            t += 1;
        }
        proof {
            assert(tv.take(ts.len() as int) =~= tv);
            assert(ep_exts(*model, row@, d, (m + 1) as nat) == start + all_tuples(model.universe@, (m + 1) as nat).map_values(fm));
        }
        m += 1;
    }
    let sorted = sort_bytes(exts);
    let mut out = base;
    out.push(0xffu8);
    push_framed(&mut out, &sorted);
    out
}


/// Every guarded neighbour is a first-order neighbour: the guarded type walks
/// only some of the one-coordinate changes that the first-order type walks.
pub proof fn law_guarded_step_is_step(rels: Seq<Relation>, row: Seq<i64>, i: int, u: i64)
    ensures
        nb_step(rels, row, i, u, true) ==> nb_step(rels, row, i, u, false),
{
}


/// Rows of one length that agree on which coordinates are equal have the same
/// comparison lines.
pub proof fn lemma_eq_upto_same_pattern(r1: Seq<i64>, r2: Seq<i64>, m: int)
    requires
        r1.len() == r2.len(),
        m <= r1.len(),
        forall|i: int, j: int| 0 <= i < r1.len() && 0 <= j < r1.len() ==> ((r1[i] == r1[j]) == (r2[i] == r2[j])),
    ensures
        eq_upto(r1, m) == eq_upto(r2, m),
    decreases m,
{
    if m > 0 {
        lemma_eq_upto_same_pattern(r1, r2, m - 1);
        let i = m - 1;
        assert(eq_line(r1, i) =~= eq_line(r2, i)) by {
            assert forall|t: int| 0 <= t < eq_line(r1, i).len() implies eq_line(r1, i)[t] == eq_line(r2, i)[t] by {
                assert((r1[i] == r1[i + 1 + t]) == (r2[i] == r2[i + 1 + t]));
            }
        }
    }
}

/// Law: without operations and without existentials the existential-positive type
/// of a row is its equality pattern, so rows of one length that agree on which
/// coordinates are equal get the same key.
pub proof fn law_ep_type_sees_only_pattern(model: Model, r1: Seq<i64>, r2: Seq<i64>, d: nat)
    requires
        model.operations.len() == 0,
        r1.len() == r2.len(),
        forall|i: int, j: int| 0 <= i < r1.len() && 0 <= j < r1.len() ==> ((r1[i] == r1[j]) == (r2[i] == r2[j])),
    ensures
        ep_key(model, r1, d, 0) == eq_pattern(r1),
        ep_key(model, r1, d, 0) == ep_key(model, r2, d, 0),
{
    lemma_eq_upto_same_pattern(r1, r2, r1.len() as int);
}

/// Number of elements of `univ` other than `x`.
pub open spec fn count_other(univ: Seq<i64>, x: i64) -> nat
    decreases univ.len(),
{
    if univ.len() == 0 {
        0
    } else {
        count_other(univ.drop_last(), x) + if univ.last() != x {
            1nat
        } else {
            0nat
        }
    }
}

/// Number of first-order neighbours of `row` along its first `m` coordinates: for
/// each coordinate, the elements of `univ` other than the one it holds.
pub open spec fn neighbour_count(univ: Seq<i64>, row: Seq<i64>, m: int) -> nat
    decreases m,
{
    if m <= 0 {
        0
    } else {
        neighbour_count(univ, row, m - 1) + count_other(univ, row[m - 1])
    }
}

proof fn lemma_coord_nbrs_len(rels: Seq<Relation>, univ: Seq<i64>, row: Seq<i64>, i: int)
    requires
        0 <= i < row.len(),
    ensures
        coord_nbrs(rels, univ, row, i, false).len() == count_other(univ, row[i]),
    decreases univ.len(),
{
    if univ.len() > 0 {
        lemma_coord_nbrs_len(rels, univ.drop_last(), row, i);
    }
}

proof fn lemma_nbrs_len(rels: Seq<Relation>, univ: Seq<i64>, row: Seq<i64>, m: int)
    requires
        m <= row.len(),
    ensures
        nbrs(rels, univ, row, m, false).len() == neighbour_count(univ, row, m),
    decreases m,
{
    if m > 0 {
        lemma_nbrs_len(rels, univ, row, m - 1);
        lemma_coord_nbrs_len(rels, univ, row, m - 1);
    }
}

proof fn lemma_key_hashes_len(model: Model, ts: Seq<Seq<i64>>, k: nat, d: nat, guarded: bool)
    ensures
        key_hashes(model, ts, k, d, guarded).len() == ts.len(),
    decreases ts.len(),
{
    if ts.len() > 0 {
        lemma_key_hashes_len(model, ts.drop_last(), k, d, guarded);
    }
}

proof fn lemma_hashes_le_len(s: Seq<u64>)
    ensures
        hashes_le(s).len() == 8 * s.len(),
    decreases s.len(),
{
    if s.len() > 0 {
        lemma_hashes_le_len(s.drop_last());
    }
}

/// Law: each level of the first-order type keeps the level below as a prefix and
/// appends one 8-byte hash per neighbour, a neighbour being the row with one
/// coordinate changed to another element of the universe.
pub proof fn law_fo_key_layers(model: Model, row: Seq<i64>, k: nat, arity_vars: nat)
    requires
        k >= 1,
    ensures
        fo_key(model, row, k, arity_vars).len() == fo_key(model, row, (k - 1) as nat, arity_vars).len() + 8
            * neighbour_count(model.universe@, row, row.len() as int),
        fo_key(model, row, k, arity_vars).subrange(0, fo_key(model, row, (k - 1) as nat, arity_vars).len() as int)
            == fo_key(model, row, (k - 1) as nat, arity_vars),
{
    let d = fo_depth(model, arity_vars);
    let ns = nbrs(model.relations@, model.universe@, row, row.len() as int, false);
    let hs = key_hashes(model, ns, (k - 1) as nat, d, false);
    lemma_nbrs_len(model.relations@, model.universe@, row, row.len() as int);
    lemma_key_hashes_len(model, ns, (k - 1) as nat, d, false);
    lemma_hash_leq_total();
    hs.lemma_sort_by_ensures(hash_leq());
    hs.to_multiset_ensures();
    sorted_hashes(hs).to_multiset_ensures();
    lemma_hashes_le_len(sorted_hashes(hs));
    let prev = layered_key(model, row, (k - 1) as nat, d, false);
    assert(fo_key(model, row, k, arity_vars) == prev + hashes_le(sorted_hashes(hs)));
    assert((prev + hashes_le(sorted_hashes(hs))).subrange(0, prev.len() as int) =~= prev);
}

} // verus!


