//! A finished block whose tuples are not all on one side of the target is split by
//! isomorphism type: the tuples fall into classes of equal type, and when no class holds
//! tuples on both sides, each class becomes a block of its own.

use vstd::prelude::*;

use crate::engines::tuple_model_hash::{compact_same, CompactIsoType};
use crate::hit::TupleHistory;

verus! {

/// The positions below `n` that `sel` picks, in increasing order.
pub open spec fn picked(n: nat, sel: spec_fn(int) -> bool) -> Seq<usize>
    decreases n,
{
    if n == 0 {
        Seq::empty()
    } else {
        let p = picked((n - 1) as nat, sel);
        if sel(n - 1) {
            p.push((n - 1) as usize)
        } else {
            p
        }
    }
}

/// Some tuple of the target has proxy `p`.
pub open spec fn in_proxy(ts: Seq<TupleHistory>, proxies: Seq<u64>, p: u64) -> bool {
    exists|j: int| 0 <= j < ts.len() && (#[trigger] ts[j]).in_target && proxies[j] == p
}

/// The order in which the tuples are classified: those of the target, then those outside
/// whose proxy is also a proxy of the target, then the other ones outside.
pub open spec fn classify_order(ts: Seq<TupleHistory>, proxies: Seq<u64>) -> Seq<usize> {
    picked(ts.len(), |i: int| ts[i].in_target) + picked(
        ts.len(),
        |i: int| !ts[i].in_target && in_proxy(ts, proxies, proxies[i]),
    ) + picked(ts.len(), |i: int| !ts[i].in_target && !in_proxy(ts, proxies, proxies[i]))
}

/// The first class from `c` on whose type is `t`, or the number of classes.
pub open spec fn class_from(types: Seq<CompactIsoType>, cl: Seq<Seq<usize>>, t: CompactIsoType, c: int) -> int
    decreases cl.len() - c,
{
    if c >= cl.len() {
        cl.len() as int
    } else if compact_same(types[cl[c][0] as int], t) {
        c
    } else {
        class_from(types, cl, t, c + 1)
    }
}

/// The classes of equal type of the positions in `order`, in order of first appearance,
/// each with its members in order.
pub open spec fn classes_of(types: Seq<CompactIsoType>, order: Seq<usize>) -> Seq<Seq<usize>>
    decreases order.len(),
{
    if order.len() == 0 {
        Seq::empty()
    } else {
        let prev = classes_of(types, order.drop_last());
        let i = order.last();
        let c = class_from(types, prev, types[i as int], 0);
        if c < prev.len() {
            prev.update(c, prev[c].push(i))
        } else {
            prev.push(seq![i])
        }
    }
}

/// The class holds tuples on both sides of the target.
pub open spec fn class_mixed(ts: Seq<TupleHistory>, members: Seq<usize>) -> bool {
    exists|a: int, b: int|
        0 <= a < members.len() && 0 <= b < members.len() && (#[trigger] ts[members[a] as int]).in_target
            != (#[trigger] ts[members[b] as int]).in_target
}

/// The classes of the split, or `None` when a class is mixed or there is one class at most.
pub open spec fn impure_split(ts: Seq<TupleHistory>, types: Seq<CompactIsoType>, proxies: Seq<u64>) -> Option<
    Seq<Seq<usize>>,
> {
    let cl = classes_of(types, classify_order(ts, proxies));
    if (exists|c: int| 0 <= c < cl.len() && class_mixed(ts, #[trigger] cl[c])) || cl.len() <= 1 {
        None
    } else {
        Some(cl)
    }
}

/// The view of rows of positions.
pub open spec fn rows_view(v: Seq<Vec<usize>>) -> Seq<Seq<usize>> {
    Seq::new(v.len(), |i: int| v[i]@)
}

/// The positions below the length of `ts` that the selector picks.
fn pick_positions(ts: &Vec<TupleHistory>, proxies: &Vec<u64>, part: u8) -> (r: Vec<usize>)
    requires
        proxies.len() == ts.len(),
        part < 3,
    ensures
        part == 0 ==> r@ == picked(ts.len() as nat, |i: int| ts@[i].in_target),
        part == 1 ==> r@ == picked(
            ts.len() as nat,
            |i: int| !ts@[i].in_target && in_proxy(ts@, proxies@, proxies@[i]),
        ),
        part == 2 ==> r@ == picked(
            ts.len() as nat,
            |i: int| !ts@[i].in_target && !in_proxy(ts@, proxies@, proxies@[i]),
        ),
        forall|k: int| 0 <= k < r.len() ==> #[trigger] r@[k] < ts.len(),
{
    let ghost sel: spec_fn(int) -> bool = if part == 0 {
        |i: int| ts@[i].in_target
    } else if part == 1 {
        |i: int| !ts@[i].in_target && in_proxy(ts@, proxies@, proxies@[i])
    } else {
        |i: int| !ts@[i].in_target && !in_proxy(ts@, proxies@, proxies@[i])
    };
    let mut r: Vec<usize> = Vec::new();
    let mut i: usize = 0;
    while i < ts.len()
        invariant
            i <= ts.len(),
            proxies.len() == ts.len(),
            part < 3,
            sel == (if part == 0 {
                |i: int| ts@[i].in_target
            } else if part == 1 {
                |i: int| !ts@[i].in_target && in_proxy(ts@, proxies@, proxies@[i])
            } else {
                |i: int| !ts@[i].in_target && !in_proxy(ts@, proxies@, proxies@[i])
            }),
            r@ == picked(i as nat, sel),
            forall|k: int| 0 <= k < r.len() ==> #[trigger] r@[k] < i,
        decreases ts.len() - i,
    {
        let take = if part == 0 {
            ts[i].in_target
        } else if ts[i].in_target {
            false
        } else {
            let shared = proxy_of_target(ts, proxies, proxies[i]);
            if part == 1 {
                shared
            } else {
                !shared
            }
        };
        proof {
            assert(take == sel(i as int));
        }
        if take {
            r.push(i);
        }
        i += 1;
    }
    r
}

/// Some tuple of the target has proxy `p`.
fn proxy_of_target(ts: &Vec<TupleHistory>, proxies: &Vec<u64>, p: u64) -> (r: bool)
    requires
        proxies.len() == ts.len(),
    ensures
        r == in_proxy(ts@, proxies@, p),
{
    let mut j: usize = 0;
    while j < ts.len()
        invariant
            j <= ts.len(),
            proxies.len() == ts.len(),
            forall|j2: int| 0 <= j2 < j ==> !((#[trigger] ts@[j2]).in_target && proxies@[j2] == p),
        decreases ts.len() - j,
    {
        if ts[j].in_target && proxies[j] == p {
            return true;
        }
        j += 1;
    }
    false
}

/// A copy of the row with `x` added at its end.
fn pushed(row: &Vec<usize>, x: usize) -> (r: Vec<usize>)
    ensures
        r@ == row@.push(x),
{
    let mut r: Vec<usize> = Vec::new();
    let mut k: usize = 0;
    while k < row.len()
        invariant
            k <= row.len(),
            r@ == row@.take(k as int),
        decreases row.len() - k,
    {
        r.push(row[k]);
        k += 1;
        proof {
            assert(r@ =~= row@.take(k as int));
        }
    }
    r.push(x);
    proof {
        assert(row@.take(row.len() as int) =~= row@);
    }
    r
}

/// Splits a finished block by isomorphism type: `types[i]` is the type of tuple `i` and
/// `proxies[i]` its cheap fingerprint, which orders the tuples outside the target. The
/// tuples are grouped into classes of equal type; the result is the classes, as
/// positions of the block's tuples, when no class holds tuples on both sides of the
/// target and there are at least two; `None` otherwise.
pub fn split_finished_impure(ts: &Vec<TupleHistory>, types: &Vec<CompactIsoType>, proxies: &Vec<u64>) -> (r: Option<
    Vec<Vec<usize>>,
>)
    requires
        types.len() == ts.len(),
        proxies.len() == ts.len(),
    ensures
        match r {
            Some(cl) => impure_split(ts@, types@, proxies@) == Some(rows_view(cl@)),
            None => impure_split(ts@, types@, proxies@) is None,
        },
{
    let ins = pick_positions(ts, proxies, 0);
    let over = pick_positions(ts, proxies, 1);
    let novel = pick_positions(ts, proxies, 2);
    let mut order = ins;
    let mut o2 = over;
    let mut o3 = novel;
    order.append(&mut o2);
    order.append(&mut o3);
    let ghost ord = classify_order(ts@, proxies@);
    proof {
        assert(order@ =~= ord);
    }
    let mut classes: Vec<Vec<usize>> = Vec::new();
    let mut k: usize = 0;
    while k < order.len()
        invariant
            k <= order.len(),
            order@ == ord,
            types.len() == ts.len(),
            forall|q: int| 0 <= q < order.len() ==> #[trigger] order@[q] < ts.len(),
            rows_view(classes@) == classes_of(types@, ord.take(k as int)),
            forall|c: int| 0 <= c < classes.len() ==> (#[trigger] classes@[c]).len() > 0,
            forall|c: int, m: int|
                0 <= c < classes.len() && 0 <= m < classes@[c].len() ==> #[trigger] classes@[c]@[m] < ts.len(),
        decreases order.len() - k,
    {
        let i = order[k];
        let ghost prev = rows_view(classes@);
        proof {
            assert(ord.take(k + 1).drop_last() =~= ord.take(k as int));
            assert(ord.take(k + 1).last() == i);
        }
        let mut c: usize = 0;
        let mut found = false;
        while c < classes.len() && !found
            invariant
                c <= classes.len(),
                prev == rows_view(classes@),
                i < ts.len(),
                types.len() == ts.len(),
                forall|c2: int| 0 <= c2 < classes.len() ==> (#[trigger] classes@[c2]).len() > 0,
                forall|c2: int, m: int|
                    0 <= c2 < classes.len() && 0 <= m < classes@[c2].len() ==> #[trigger] classes@[c2]@[m]
                        < ts.len(),
                !found ==> class_from(types@, prev, types@[i as int], 0) == class_from(
                    types@,
                    prev,
                    types@[i as int],
                    c as int,
                ),
                found ==> c < classes.len() && class_from(types@, prev, types@[i as int], 0) == c,
            decreases classes.len() - c + (if found { 0int } else { 1int }),
        {
            let first = classes[c][0];
            proof {
                assert(prev[c as int] == classes@[c as int]@);
            }
            if types[first].same(&types[i]) {
                found = true;
            } else {
                c += 1;
            }
        }
        let ghost cc = class_from(types@, prev, types@[i as int], 0);
        proof {
            assert(classes_of(types@, ord.take(k + 1)) == if cc < prev.len() {
                prev.update(cc, prev[cc].push(i))
            } else {
                prev.push(seq![i])
            });
        }
        if found {
            let row = pushed(&classes[c], i);
            proof {
                assert(row@ == prev[c as int].push(i));
            }
            classes.set(c, row);
            proof {
                assert(rows_view(classes@) =~= prev.update(cc, prev[cc].push(i)));
            }
        } else {
            let row = vec![i];
            proof {
                assert(row@ =~= seq![i]);
            }
            classes.push(row);
            proof {
                assert(rows_view(classes@) =~= prev.push(seq![i]));
            }
        }
        k += 1;
    }
    proof {
        assert(ord.take(ord.len() as int) =~= ord);
    }
    if classes.len() <= 1 {
        return None;
    }
    let mut c: usize = 0;
    while c < classes.len()
        invariant
            c <= classes.len(),
            rows_view(classes@) == classes_of(types@, ord),
            forall|c2: int| 0 <= c2 < classes.len() ==> (#[trigger] classes@[c2]).len() > 0,
            forall|c2: int, m: int|
                0 <= c2 < classes.len() && 0 <= m < classes@[c2].len() ==> #[trigger] classes@[c2]@[m] < ts.len(),
            forall|c2: int| 0 <= c2 < c ==> !class_mixed(ts@, #[trigger] rows_view(classes@)[c2]),
            ord == classify_order(ts@, proxies@),
        decreases classes.len() - c,
    {
        let row = &classes[c];
        let side = ts[row[0]].in_target;
        let mut m: usize = 1;
        while m < row.len()
            invariant
                c < classes.len(),
                row@ == classes@[c as int]@,
                rows_view(classes@) == classes_of(types@, ord),
                ord == classify_order(ts@, proxies@),
                1 <= m <= row.len(),
                row.len() > 0,
                forall|m2: int| 0 <= m2 < row.len() ==> #[trigger] row@[m2] < ts.len(),
                side == ts@[row@[0] as int].in_target,
                forall|m2: int| 0 <= m2 < m ==> (#[trigger] ts@[row@[m2] as int]).in_target == side,
            decreases row.len() - m,
        {
            if ts[row[m]].in_target != side {
                proof {
                    assert(rows_view(classes@)[c as int] == row@);
                    assert(ts@[row@[0] as int].in_target != ts@[row@[m as int] as int].in_target);
                        assert(class_mixed(ts@, rows_view(classes@)[c as int]));
                    assert(class_mixed(ts@, classes_of(types@, classify_order(ts@, proxies@))[c as int]));
                }
                return None;
            }
            m += 1;
        }
        proof {
            assert(rows_view(classes@)[c as int] == row@);
            assert forall|a: int, b: int|
                0 <= a < row@.len() && 0 <= b < row@.len() implies (#[trigger] ts@[row@[a] as int]).in_target
                == (#[trigger] ts@[row@[b] as int]).in_target by {}
        }
        c += 1;
    }
    proof {
        assert(rows_view(classes@).len() == classes.len());
    }
    Some(classes)
}

/// What the search does next with a block.
#[derive(Debug, Clone, Copy, PartialEq, Eq)]
pub enum NextMove {
    /// Every tuple lies in the target: the block's formula describes them.
    AllIn,
    /// No tuple lies in the target: the block contributes nothing.
    NoneIn,
    /// The tuples are on both sides and the generator is done (or the split by type is
    /// asked for eagerly): the block is split by isomorphism type.
    SplitByType,
    /// The tuples are on both sides: the generator is asked for a candidate.
    Step,
}

/// Every tuple lies in the target.
pub open spec fn all_in(ts: Seq<TupleHistory>) -> bool {
    forall|j: int| 0 <= j < ts.len() ==> (#[trigger] ts[j]).in_target
}

/// No tuple lies in the target.
pub open spec fn none_in(ts: Seq<TupleHistory>) -> bool {
    forall|j: int| 0 <= j < ts.len() ==> !(#[trigger] ts[j]).in_target
}

/// The move on a block of tuples `ts` whose generator is `finished`, with the split by
/// type taken `eager`ly on blocks with tuples on both sides when asked.
pub open spec fn next_move_spec(ts: Seq<TupleHistory>, finished: bool, eager: bool) -> NextMove {
    if all_in(ts) {
        NextMove::AllIn
    } else if none_in(ts) {
        NextMove::NoneIn
    } else if finished || eager {
        NextMove::SplitByType
    } else {
        NextMove::Step
    }
}

/// The next move of the search on a block of tuples `ts`.
pub fn next_move(ts: &Vec<TupleHistory>, finished: bool, eager: bool) -> (r: NextMove)
    ensures
        r == next_move_spec(ts@, finished, eager),
        r == NextMove::AllIn <==> forall|j: int| 0 <= j < ts.len() ==> (#[trigger] ts@[j]).in_target,
        r == NextMove::NoneIn <==> (ts.len() > 0 && forall|j: int| 0 <= j < ts.len() ==> !(#[trigger] ts@[j]).in_target),
        r == NextMove::SplitByType <==> ((exists|j: int| 0 <= j < ts.len() && (#[trigger] ts@[j]).in_target) && (exists|
            j: int,
        | 0 <= j < ts.len() && !(#[trigger] ts@[j]).in_target) && (finished || eager)),
{
    proof {
        law_next_move(ts@, finished, eager);
    }
    let mut any_in = false;
    let mut any_out = false;
    let mut j: usize = 0;
    while j < ts.len()
        invariant
            j <= ts.len(),
            any_in <==> exists|j2: int| 0 <= j2 < j && (#[trigger] ts@[j2]).in_target,
            any_out <==> exists|j2: int| 0 <= j2 < j && !(#[trigger] ts@[j2]).in_target,
        decreases ts.len() - j,
    {
        if ts[j].in_target {
            any_in = true;
        } else {
            any_out = true;
        }
        j += 1;
    }
    if !any_out {
        NextMove::AllIn
    } else if !any_in {
        NextMove::NoneIn
    } else if finished || eager {
        NextMove::SplitByType
    } else {
        NextMove::Step
    }
}

/// Law: the search takes a block as all in the target exactly when every tuple is in it,
/// as outside exactly when it has tuples and none is in it, and otherwise (tuples on both
/// sides) splits it by type when the generator is done or the split is eager, and steps it
/// when not.
pub proof fn law_next_move(ts: Seq<TupleHistory>, finished: bool, eager: bool)
    ensures
        next_move_spec(ts, finished, eager) == NextMove::AllIn <==> forall|j: int|
            0 <= j < ts.len() ==> (#[trigger] ts[j]).in_target,
        next_move_spec(ts, finished, eager) == NextMove::NoneIn <==> (ts.len() > 0 && forall|j: int|
            0 <= j < ts.len() ==> !(#[trigger] ts[j]).in_target),
        next_move_spec(ts, finished, eager) == NextMove::SplitByType <==> ((exists|j: int|
            0 <= j < ts.len() && (#[trigger] ts[j]).in_target) && (exists|j: int|
            0 <= j < ts.len() && !(#[trigger] ts[j]).in_target) && (finished || eager)),
        next_move_spec(ts, finished, eager) == NextMove::Step <==> ((exists|j: int|
            0 <= j < ts.len() && (#[trigger] ts[j]).in_target) && (exists|j: int|
            0 <= j < ts.len() && !(#[trigger] ts[j]).in_target) && !finished && !eager),
{
    if ts.len() > 0 && none_in(ts) {
        assert(!ts[0].in_target);
    }
}


/// The positions that `picked` lists are exactly those below `n` that `sel` picks.
proof fn lemma_picked(n: nat, sel: spec_fn(int) -> bool)
    requires
        n <= usize::MAX,
    ensures
        forall|q: int| 0 <= q < picked(n, sel).len() ==> (#[trigger] picked(n, sel)[q]) < n && sel(picked(n, sel)[q] as int),
        forall|i: int| 0 <= i < n && sel(i) ==> #[trigger] picked(n, sel).contains(i as usize),
    decreases n,
{
    if n > 0 {
        let p = picked((n - 1) as nat, sel);
        lemma_picked((n - 1) as nat, sel);
        assert forall|i: int| 0 <= i < n && sel(i) implies #[trigger] picked(n, sel).contains(i as usize) by {
            if i < n - 1 {
                assert(p.contains(i as usize));
                let q = choose|q: int| 0 <= q < p.len() && p[q] == i as usize;
                if sel(n - 1) {
                    assert(picked(n, sel)[q] == i as usize);
                }
            } else {
                assert(picked(n, sel)[p.len() as int] == i as usize);
            }
        }
    }
}

/// Every position below the number of tuples is classified, and only those.
proof fn lemma_classify_order(ts: Seq<TupleHistory>, proxies: Seq<u64>)
    requires
        ts.len() <= usize::MAX,
    ensures
        forall|q: int| 0 <= q < classify_order(ts, proxies).len() ==> (#[trigger] classify_order(ts, proxies)[q]) < ts.len(),
        forall|i: int| 0 <= i < ts.len() ==> #[trigger] classify_order(ts, proxies).contains(i as usize),
{
    let s0 = |i: int| ts[i].in_target;
    let s1 = |i: int| !ts[i].in_target && in_proxy(ts, proxies, proxies[i]);
    let s2 = |i: int| !ts[i].in_target && !in_proxy(ts, proxies, proxies[i]);
    let a = picked(ts.len(), s0);
    let b = picked(ts.len(), s1);
    let c = picked(ts.len(), s2);
    lemma_picked(ts.len(), s0);
    lemma_picked(ts.len(), s1);
    lemma_picked(ts.len(), s2);
    let o = classify_order(ts, proxies);
    assert(o == a + b + c);
    assert forall|q: int| 0 <= q < o.len() implies (#[trigger] o[q]) < ts.len() by {
        if q < a.len() {
            assert(o[q] == a[q]);
        } else if q < a.len() + b.len() {
            assert(o[q] == b[q - a.len()]);
        } else {
            assert(o[q] == c[q - a.len() - b.len()]);
        }
    }
    assert forall|i: int| 0 <= i < ts.len() implies #[trigger] o.contains(i as usize) by {
        if s0(i) {
            assert(a.contains(i as usize));
            let q = choose|q: int| 0 <= q < a.len() && a[q] == i as usize;
            assert(o[q] == i as usize);
        } else if s1(i) {
            assert(b.contains(i as usize));
            let q = choose|q: int| 0 <= q < b.len() && b[q] == i as usize;
            assert(o[a.len() + q] == i as usize);
        } else {
            assert(s2(i));
            assert(c.contains(i as usize));
            let q = choose|q: int| 0 <= q < c.len() && c[q] == i as usize;
            assert(o[a.len() + b.len() + q] == i as usize);
        }
    }
}

/// `class_from` finds the first class from `c` on whose first member has type `t`.
proof fn lemma_class_from(types: Seq<CompactIsoType>, cl: Seq<Seq<usize>>, t: CompactIsoType, c: int)
    requires
        0 <= c <= cl.len(),
    ensures
        c <= class_from(types, cl, t, c) <= cl.len(),
        class_from(types, cl, t, c) < cl.len() ==> compact_same(types[cl[class_from(types, cl, t, c)][0] as int], t),
        forall|c2: int| c <= c2 < class_from(types, cl, t, c) ==> !compact_same(types[(#[trigger] cl[c2])[0] as int], t),
    decreases cl.len() - c,
{
    if c < cl.len() && !compact_same(types[cl[c][0] as int], t) {
        lemma_class_from(types, cl, t, c + 1);
    }
}

/// The position `x` is a member of some class.
pub open spec fn classified(cl: Seq<Seq<usize>>, x: usize) -> bool {
    exists|c: int, m: int| 0 <= c < cl.len() && 0 <= m < cl[c].len() && (#[trigger] cl[c][m]) == x
}

/// The classes are non-empty, hold members of one type each, members of different classes have
/// different types, and the members are exactly the positions of `order`.
proof fn lemma_classes_of(types: Seq<CompactIsoType>, order: Seq<usize>)
    requires
        forall|q: int| 0 <= q < order.len() ==> (#[trigger] order[q]) < types.len(),
    ensures
        forall|c: int| 0 <= c < classes_of(types, order).len() ==> (#[trigger] classes_of(types, order)[c]).len() > 0,
        forall|c: int, m: int|
            0 <= c < classes_of(types, order).len() && 0 <= m < classes_of(types, order)[c].len() ==> order.contains(
                #[trigger] classes_of(types, order)[c][m],
            ) && compact_same(
                types[classes_of(types, order)[c][m] as int],
                types[classes_of(types, order)[c][0] as int],
            ),
        forall|c1: int, c2: int|
            0 <= c1 < c2 < classes_of(types, order).len() ==> !compact_same(
                types[(#[trigger] classes_of(types, order)[c1])[0] as int],
                types[(#[trigger] classes_of(types, order)[c2])[0] as int],
            ),
        forall|q: int| 0 <= q < order.len() ==> classified(classes_of(types, order), #[trigger] order[q]),
    decreases order.len(),
{
    if order.len() > 0 {
        let d = order.drop_last();
        assert forall|q: int| 0 <= q < d.len() implies (#[trigger] d[q]) < types.len() by {
            assert(d[q] == order[q]);
        }
        lemma_classes_of(types, d);
        let prev = classes_of(types, d);
        let i = order.last();
        let cl = classes_of(types, order);
        lemma_class_from(types, prev, types[i as int], 0);
        let cc = class_from(types, prev, types[i as int], 0);
        assert(order[order.len() - 1] == i);
        assert forall|x: usize| d.contains(x) implies order.contains(x) by {
            let q = choose|q: int| 0 <= q < d.len() && d[q] == x;
            assert(order[q] == x);
        }
        if cc < prev.len() {
            assert(cl == prev.update(cc, prev[cc].push(i)));
            assert forall|c: int, m: int| 0 <= c < cl.len() && 0 <= m < cl[c].len() implies order.contains(
                #[trigger] cl[c][m],
            ) && compact_same(types[cl[c][m] as int], types[cl[c][0] as int]) by {
                if c == cc && m == prev[cc].len() {
                    assert(cl[c][m] == i);
                    assert(cl[c][0] == prev[cc][0]);
                } else {
                    assert(cl[c][m] == prev[c][m]);
                    assert(cl[c][0] == prev[c][0]);
                    assert(d.contains(prev[c][m]));
                }
            }
            assert forall|c1: int, c2: int| 0 <= c1 < c2 < cl.len() implies !compact_same(
                types[(#[trigger] cl[c1])[0] as int],
                types[(#[trigger] cl[c2])[0] as int],
            ) by {
                assert(cl[c1][0] == prev[c1][0]);
                assert(cl[c2][0] == prev[c2][0]);
            }
            assert forall|q: int| 0 <= q < order.len() implies classified(cl, #[trigger] order[q]) by {
                if q < d.len() {
                    assert(d[q] == order[q]);
                    assert(classified(prev, d[q]));
                    let (c, m) = choose|c: int, m: int| 0 <= c < prev.len() && 0 <= m < prev[c].len() && (#[trigger] prev[c][m]) == d[q];
                    assert(cl[c][m] == prev[c][m]);
                } else {
                    assert(cl[cc][prev[cc].len() as int] == i);
                }
            }
        } else {
            assert(cl == prev.push(seq![i]));
            assert forall|c: int, m: int| 0 <= c < cl.len() && 0 <= m < cl[c].len() implies order.contains(
                #[trigger] cl[c][m],
            ) && compact_same(types[cl[c][m] as int], types[cl[c][0] as int]) by {
                if c == prev.len() {
                    assert(cl[c][m] == i);
                } else {
                    assert(cl[c] == prev[c]);
                    assert(d.contains(prev[c][m]));
                }
            }
            assert forall|c1: int, c2: int| 0 <= c1 < c2 < cl.len() implies !compact_same(
                types[(#[trigger] cl[c1])[0] as int],
                types[(#[trigger] cl[c2])[0] as int],
            ) by {
                assert(cl[c1] == prev[c1]);
                if c2 < prev.len() {
                    assert(cl[c2] == prev[c2]);
                } else {
                    assert(cl[c2][0] == i);
                    assert(!compact_same(types[prev[c1][0] as int], types[i as int]));
                }
            }
            assert forall|q: int| 0 <= q < order.len() implies classified(cl, #[trigger] order[q]) by {
                if q < d.len() {
                    assert(d[q] == order[q]);
                    assert(classified(prev, d[q]));
                    let (c, m) = choose|c: int, m: int| 0 <= c < prev.len() && 0 <= m < prev[c].len() && (#[trigger] prev[c][m]) == d[q];
                    assert(cl[c][m] == prev[c][m]);
                } else {
                    assert(cl[prev.len() as int][0] == i);
                }
            }
        }
    }
}

/// Law: the split of a finished block by type. When it splits, there are at least two
/// classes, every tuple is in some class, the members of a class are tuples of one type and
/// on one side of the target, and tuples of different classes have different types. It does
/// not split exactly when two tuples of one type lie on different sides of the target, or
/// when all tuples have one type.
pub proof fn law_impure_split(ts: Seq<TupleHistory>, types: Seq<CompactIsoType>, proxies: Seq<u64>)
    requires
        types.len() == ts.len(),
        ts.len() <= usize::MAX,
    ensures
        impure_split(ts, types, proxies) matches Some(cl) ==> {
            &&& cl.len() >= 2
            &&& forall|i: int| 0 <= i < ts.len() ==> #[trigger] classified(cl, i as usize)
            &&& forall|c: int, m: int|
                0 <= c < cl.len() && 0 <= m < cl[c].len() ==> (#[trigger] cl[c][m]) < ts.len() && compact_same(
                    types[cl[c][m] as int],
                    types[cl[c][0] as int],
                ) && ts[cl[c][m] as int].in_target == ts[cl[c][0] as int].in_target
            &&& forall|c1: int, c2: int, m1: int, m2: int|
                0 <= c1 < cl.len() && 0 <= c2 < cl.len() && c1 != c2 && 0 <= m1 < cl[c1].len() && 0 <= m2 < cl[c2].len()
                    ==> !compact_same(types[(#[trigger] cl[c1][m1]) as int], types[(#[trigger] cl[c2][m2]) as int])
        },
        impure_split(ts, types, proxies) is None <==> ((exists|i: int, j: int|
            0 <= i < ts.len() && 0 <= j < ts.len() && compact_same(#[trigger] types[i], #[trigger] types[j])
                && ts[i].in_target != ts[j].in_target) || (forall|i: int, j: int|
            0 <= i < ts.len() && 0 <= j < ts.len() ==> compact_same(#[trigger] types[i], #[trigger] types[j]))),
{
    let ord = classify_order(ts, proxies);
    lemma_classify_order(ts, proxies);
    lemma_classes_of(types, ord);
    let cl = classes_of(types, ord);
    // the class of a position
    assert forall|i: int| 0 <= i < ts.len() implies #[trigger] classified(cl, i as usize) by {
        assert(ord.contains(i as usize));
        let q = choose|q: int| 0 <= q < ord.len() && ord[q] == i as usize;
        assert(classified(cl, ord[q]));
    }
    assert forall|c: int, m: int| 0 <= c < cl.len() && 0 <= m < cl[c].len() implies (#[trigger] cl[c][m]) < ts.len() by {
        assert(ord.contains(cl[c][m]));
    }
    // members of different classes have different types
    assert forall|c1: int, c2: int, m1: int, m2: int|
        0 <= c1 < cl.len() && 0 <= c2 < cl.len() && c1 != c2 && 0 <= m1 < cl[c1].len() && 0 <= m2 < cl[c2].len()
            implies !compact_same(types[(#[trigger] cl[c1][m1]) as int], types[(#[trigger] cl[c2][m2]) as int]) by {
        assert(compact_same(types[cl[c1][m1] as int], types[cl[c1][0] as int]));
        assert(compact_same(types[cl[c2][m2] as int], types[cl[c2][0] as int]));
        if c1 < c2 {
            assert(!compact_same(types[cl[c1][0] as int], types[cl[c2][0] as int]));
        } else {
            assert(!compact_same(types[cl[c2][0] as int], types[cl[c1][0] as int]));
        }
    }
    let mixed = exists|c: int| 0 <= c < cl.len() && class_mixed(ts, #[trigger] cl[c]);
    let pair = exists|i: int, j: int|
        0 <= i < ts.len() && 0 <= j < ts.len() && compact_same(#[trigger] types[i], #[trigger] types[j])
            && ts[i].in_target != ts[j].in_target;
    let one = forall|i: int, j: int| 0 <= i < ts.len() && 0 <= j < ts.len() ==> compact_same(#[trigger] types[i], #[trigger] types[j]);
    if mixed {
        let c = choose|c: int| 0 <= c < cl.len() && class_mixed(ts, #[trigger] cl[c]);
        let (a, b) = choose|a: int, b: int|
            0 <= a < cl[c].len() && 0 <= b < cl[c].len() && (#[trigger] ts[cl[c][a] as int]).in_target
                != (#[trigger] ts[cl[c][b] as int]).in_target;
        assert(cl[c][a] < ts.len() && cl[c][b] < ts.len());
        assert(compact_same(types[cl[c][a] as int], types[cl[c][0] as int]));
        assert(compact_same(types[cl[c][b] as int], types[cl[c][0] as int]));
        assert(compact_same(types[cl[c][a] as int], types[cl[c][b] as int]));
        assert(pair);
    }
    if pair {
        let (i, j) = choose|i: int, j: int|
            0 <= i < ts.len() && 0 <= j < ts.len() && compact_same(#[trigger] types[i], #[trigger] types[j])
                && ts[i].in_target != ts[j].in_target;
        assert(classified(cl, i as usize));
        assert(classified(cl, j as usize));
        let (ci, mi) = choose|c: int, m: int| 0 <= c < cl.len() && 0 <= m < cl[c].len() && (#[trigger] cl[c][m]) == i as usize;
        let (cj, mj) = choose|c: int, m: int| 0 <= c < cl.len() && 0 <= m < cl[c].len() && (#[trigger] cl[c][m]) == j as usize;
        if ci != cj {
            assert(!compact_same(types[cl[ci][mi] as int], types[cl[cj][mj] as int]));
        }
        assert(ts[cl[ci][mi] as int].in_target != ts[cl[ci][mj] as int].in_target);
        assert(class_mixed(ts, cl[ci]));
        assert(mixed);
    }
    if one && cl.len() >= 2 {
        assert(cl[0].len() > 0 && cl[1].len() > 0);
        assert(!compact_same(types[cl[0][0] as int], types[cl[1][0] as int]));
        assert(cl[0][0] < ts.len() && cl[1][0] < ts.len());
    }
    if cl.len() <= 1 {
        assert forall|i: int, j: int| 0 <= i < ts.len() && 0 <= j < ts.len() implies compact_same(
            #[trigger] types[i],
            #[trigger] types[j],
        ) by {
            assert(classified(cl, i as usize));
            assert(classified(cl, j as usize));
            let (ci, mi) = choose|c: int, m: int| 0 <= c < cl.len() && 0 <= m < cl[c].len() && (#[trigger] cl[c][m]) == i as usize;
            let (cj, mj) = choose|c: int, m: int| 0 <= c < cl.len() && 0 <= m < cl[c].len() && (#[trigger] cl[c][m]) == j as usize;
            assert(ci == 0 && cj == 0);
            assert(compact_same(types[cl[0][mi] as int], types[cl[0][0] as int]));
            assert(compact_same(types[cl[0][mj] as int], types[cl[0][0] as int]));
        }
    }
    if !mixed {
        assert forall|c: int, m: int| 0 <= c < cl.len() && 0 <= m < cl[c].len() implies ts[(#[trigger] cl[c][m]) as int].in_target
            == ts[cl[c][0] as int].in_target by {
            if ts[cl[c][m] as int].in_target != ts[cl[c][0] as int].in_target {
                assert(class_mixed(ts, cl[c]));
            }
        }
    }
}


} // verus!
