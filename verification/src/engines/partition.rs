//! Partitions of the tuples of a model, refined by type keys.

use vstd::prelude::*;

use crate::engines::terms::{index_tuple_list, index_tuples, lemma_index_tuples};
use crate::first_order::models::Model;
use crate::first_order::relops::Relation;
use crate::util::lemma_tuple_deep_view;
use crate::strategy::{sat_pow, saturating_pow};
use crate::strs::{int_text, push_digits, push_str, push_usize};

verus! {

/// Largest number of tuples a partition enumerates.
pub const MAX_TUPLE_PARTITION: usize = 256;

/// All `k`-tuples over the universe, the first coordinate varying slowest.
pub open spec fn all_tuples(u: Seq<i64>, k: nat) -> Seq<Seq<i64>> {
    index_tuples(u.len() as usize, k).map_values(|it: Seq<usize>| it.map_values(|i: usize| u[i as int]))
}

/// Number of `arity`-tuples over a universe of `n` elements, saturated at `u64::MAX`.
pub open spec fn tuple_count(n: nat, arity: nat) -> u64 {
    sat_pow(n as u64, arity)
}

/// The message of a refused enumeration.
pub open spec fn enumerate_error(arity: nat, count: u64) -> Seq<char> {
    "Cannot enumerate "@ + int_text(arity as int) + "-tuples: |U|^"@ + int_text(arity as int) + " = "@
        + int_text(count as int) + " exceeds MAX="@ + int_text(MAX_TUPLE_PARTITION as int)
}

/// The `arity`-tuples over the universe in enumeration order; refused when there
/// are more than `MAX_TUPLE_PARTITION` of them.
pub fn enumerate_tuples(model: &Model, arity: usize) -> (r: Result<Vec<Vec<i64>>, String>)
    requires
        arity == 0 || model.universe.len() > 0,
    ensures
        match r {
            Ok(ts) => (arity == 0 || tuple_count(model.universe.len() as nat, arity as nat) <= MAX_TUPLE_PARTITION)
                && ts.deep_view() == all_tuples(model.universe@, arity as nat),
            Err(e) => arity > 0 && tuple_count(model.universe.len() as nat, arity as nat) > MAX_TUPLE_PARTITION
                && e@ == enumerate_error(arity as nat, tuple_count(model.universe.len() as nat, arity as nat)),
        },
{
    let u = &model.universe;
    if arity > 0 {
        let count = saturating_pow(u.len() as u64, arity);
        if count > MAX_TUPLE_PARTITION as u64 {
            let mut msg = String::new();
            push_str(&mut msg, "Cannot enumerate ");
            push_usize(&mut msg, arity);
            push_str(&mut msg, "-tuples: |U|^");
            push_usize(&mut msg, arity);
            push_str(&mut msg, " = ");
            push_digits(&mut msg, count);
            push_str(&mut msg, " exceeds MAX=");
            push_usize(&mut msg, MAX_TUPLE_PARTITION);
            proof {
                assert(int_text(count as int) == crate::strs::dec_digits(count as nat).map_values(
                    |d: nat| crate::strs::ascii_digit(d),
                ));
                assert(msg@ =~= enumerate_error(arity as nat, count));
            }
            return Err(msg);
        }
    }
    Ok(tuples_over(u, arity))
}

/// All `arity`-tuples over `u`, the first coordinate varying slowest.
pub fn tuples_over(u: &Vec<i64>, arity: usize) -> (r: Vec<Vec<i64>>)
    ensures
        r.deep_view() == all_tuples(u@, arity as nat),
{
    let idx = index_tuple_list(u.len(), arity);
    let ghost iv = idx.deep_view();
    proof {
        lemma_index_tuples(u.len(), arity as nat);
    }
    let mut out: Vec<Vec<i64>> = Vec::new();
    let mut a: usize = 0;
    while a < idx.len()
        invariant
            a <= idx.len(),
            iv == idx.deep_view(),
            iv == index_tuples(u.len(), arity as nat),
            forall|t: int| 0 <= t < iv.len() ==> (#[trigger] iv[t]).len() == arity && forall|x: int|
                0 <= x < arity ==> iv[t][x] < u.len(),
            out.deep_view() == all_tuples(u@, arity as nat).take(a as int),
        decreases idx.len() - a,
    {
        let it = &idx[a];
        let mut row: Vec<i64> = Vec::new();
        let mut j: usize = 0;
        proof {
            assert(iv[a as int] == it@);
        }
        while j < it.len()
            invariant
                j <= it.len(),
                it@ == iv[a as int],
                forall|x: int| 0 <= x < it.len() ==> #[trigger] it@[x] < u.len(),
                row@ == it@.take(j as int).map_values(|i: usize| u@[i as int]),
            decreases it.len() - j,
        {
            row.push(u[it[j]]);
            j += 1;
            proof {
                assert(row@ =~= it@.take(j as int).map_values(|i: usize| u@[i as int]));
            }
        }
        let ghost before = out.deep_view();
        proof {
            lemma_tuple_deep_view(row);
        }
        out.push(row);
        proof {
            assert(it@.take(it.len() as int) =~= it@);
            assert(all_tuples(u@, arity as nat)[a as int] == it@.map_values(|i: usize| u@[i as int]));
            assert(out.deep_view() =~= before.push(row@));
            assert(all_tuples(u@, arity as nat).take(a + 1) =~= all_tuples(u@, arity as nat).take(a as int).push(row@));
        }
        a += 1;
    }
    proof {
        assert(all_tuples(u@, arity as nat).take(idx.len() as int) =~= all_tuples(u@, arity as nat));
    }
    out
}


/// Every block of `bs` lies wholly inside or wholly outside the target.
pub open spec fn blocks_pure(bs: Seq<Seq<Seq<i64>>>, target: Relation) -> bool {
    forall|n: int, p: int, q: int|
        0 <= n < bs.len() && 0 <= p < bs[n].len() && 0 <= q < bs[n].len() ==> target.has(#[trigger] bs[n][p])
            == target.has(#[trigger] bs[n][q])
}

/// Within each block of `bs`, tuples with equal keys are both inside or both outside the target.
pub open spec fn key_pure(bs: Seq<Seq<Seq<i64>>>, keys: Seq<Seq<Seq<u8>>>, target: Relation) -> bool {
    forall|b: int, i: int, j: int|
        0 <= b < bs.len() && 0 <= i < bs[b].len() && 0 <= j < bs[b].len() && keys[b][i] == keys[b][j]
            ==> target.has(#[trigger] bs[b][i]) == target.has(#[trigger] bs[b][j])
}

/// `new` splits each block of `old` by key: tuples of one block with equal keys
/// share a new block, and the tuples of a new block come from one old block
/// with one key.
pub open spec fn refines(old: Seq<Seq<Seq<i64>>>, keys: Seq<Seq<Seq<u8>>>, new: Seq<Seq<Seq<i64>>>) -> bool {
    &&& forall|b: int, i: int, j: int|
        0 <= b < old.len() && 0 <= i < old[b].len() && 0 <= j < old[b].len() && #[trigger] keys[b][i]
            == #[trigger] keys[b][j] ==> exists|n: int|
            0 <= n < new.len() && (#[trigger] new[n]).contains(old[b][i]) && new[n].contains(old[b][j])
    &&& forall|n: int, p: int, q: int|
        0 <= n < new.len() && 0 <= p < new[n].len() && 0 <= q < new[n].len() ==> from_one_block(
            old,
            keys,
            #[trigger] new[n][p],
            #[trigger] new[n][q],
        )
}

/// `u` and `v` are tuples of one block of `old` with equal keys.
pub open spec fn from_one_block(old: Seq<Seq<Seq<i64>>>, keys: Seq<Seq<Seq<u8>>>, u: Seq<i64>, v: Seq<i64>) -> bool {
    exists|b: int, i: int, j: int|
        0 <= b < old.len() && 0 <= i < old[b].len() && 0 <= j < old[b].len() && old[b][i] == u && old[b][j] == v
            && keys[b][i] == keys[b][j]
}

/// A refinement by keys is pure exactly when tuples of a block with equal keys agree on the target.
pub proof fn lemma_refine_pure(
    old: Seq<Seq<Seq<i64>>>,
    keys: Seq<Seq<Seq<u8>>>,
    new: Seq<Seq<Seq<i64>>>,
    target: Relation,
)
    requires
        refines(old, keys, new),
    ensures
        blocks_pure(new, target) == key_pure(old, keys, target),
{
    if blocks_pure(new, target) {
        lemma_pure_to_key_pure(old, keys, new, target);
    }
    if key_pure(old, keys, target) {
        lemma_key_pure_to_pure(old, keys, new, target);
    }
}

proof fn lemma_pure_to_key_pure(
    old: Seq<Seq<Seq<i64>>>,
    keys: Seq<Seq<Seq<u8>>>,
    new: Seq<Seq<Seq<i64>>>,
    target: Relation,
)
    requires
        refines(old, keys, new),
        blocks_pure(new, target),
    ensures
        key_pure(old, keys, target),
{
    {
        assert forall|b: int, i: int, j: int|
            0 <= b < old.len() && 0 <= i < old[b].len() && 0 <= j < old[b].len() && keys[b][i] == keys[b][j]
                implies target.has(#[trigger] old[b][i]) == target.has(#[trigger] old[b][j]) by {
            assert(keys[b][i] == keys[b][j]);
            let n = choose|n: int| 0 <= n < new.len() && (#[trigger] new[n]).contains(old[b][i]) && new[n].contains(old[b][j]);
            let p = choose|p: int| 0 <= p < new[n].len() && new[n][p] == old[b][i];
            let q = choose|q: int| 0 <= q < new[n].len() && new[n][q] == old[b][j];
            assert(target.has(new[n][p]) == target.has(new[n][q]));
        }
    }
}

proof fn lemma_key_pure_to_pure(
    old: Seq<Seq<Seq<i64>>>,
    keys: Seq<Seq<Seq<u8>>>,
    new: Seq<Seq<Seq<i64>>>,
    target: Relation,
)
    requires
        refines(old, keys, new),
        key_pure(old, keys, target),
    ensures
        blocks_pure(new, target),
{
    {
        assert forall|n: int, p: int, q: int|
            0 <= n < new.len() && 0 <= p < new[n].len() && 0 <= q < new[n].len() implies target.has(
                #[trigger] new[n][p],
            ) == target.has(#[trigger] new[n][q]) by {
            assert(from_one_block(old, keys, new[n][p], new[n][q]));
            let (b, i, j) = choose|b: int, i: int, j: int|
                0 <= b < old.len() && 0 <= i < old[b].len() && 0 <= j < old[b].len() && old[b][i] == new[n][p]
                    && old[b][j] == new[n][q] && keys[b][i] == keys[b][j];
            assert(target.has(old[b][i]) == target.has(old[b][j]));
        }
    }
}

/// Byte strings are equal.
pub fn bytes_eq(a: &Vec<u8>, b: &Vec<u8>) -> (r: bool)
    ensures
        r == (a@ == b@),
{
    if a.len() != b.len() {
        return false;
    }
    let mut i: usize = 0;
    while i < a.len()
        invariant
            i <= a.len(),
            a.len() == b.len(),
            forall|k: int| 0 <= k < i ==> a@[k] == b@[k],
        decreases a.len() - i,
    {
        if a[i] != b[i] {
            return false;
        }
        i += 1;
    }
    proof {
        assert(a@ =~= b@);
    }
    true
}

/// Copy of a byte string.
pub fn copy_bytes(a: &Vec<u8>) -> (r: Vec<u8>)
    ensures
        r@ == a@,
{
    let mut r: Vec<u8> = Vec::new();
    let mut i: usize = 0;
    while i < a.len()
        invariant
            i <= a.len(),
            r@ == a@.take(i as int),
        decreases a.len() - i,
    {
        r.push(a[i]);
        i += 1;
        proof {
            assert(r@ =~= a@.take(i as int));
        }
    }
    proof {
        assert(r@ =~= a@);
    }
    r
}

/// The distinct keys in order of first appearance.
pub open spec fn first_keys(ks: Seq<Seq<u8>>) -> Seq<Seq<u8>>
    decreases ks.len(),
{
    if ks.len() == 0 {
        Seq::empty()
    } else {
        let f = first_keys(ks.drop_last());
        if f.contains(ks.last()) {
            f
        } else {
            f.push(ks.last())
        }
    }
}

/// The tuples of a block whose key is `key`, in order.
pub open spec fn bucket(blk: Seq<Seq<i64>>, ks: Seq<Seq<u8>>, key: Seq<u8>) -> Seq<Seq<i64>>
    decreases blk.len(),
{
    if blk.len() == 0 || ks.len() == 0 {
        Seq::empty()
    } else {
        let r = bucket(blk.drop_last(), ks.drop_last(), key);
        if ks.last() == key {
            r.push(blk.last())
        } else {
            r
        }
    }
}

/// A block split by key, buckets in order of first appearance of their key.
pub open spec fn split_block(blk: Seq<Seq<i64>>, ks: Seq<Seq<u8>>) -> Seq<Seq<Seq<i64>>> {
    first_keys(ks).map_values(|k: Seq<u8>| bucket(blk, ks, k))
}

/// Every block split by key, in block order.
pub open spec fn refined(old: Seq<Seq<Seq<i64>>>, keys: Seq<Seq<Seq<u8>>>) -> Seq<Seq<Seq<i64>>>
    decreases old.len(),
{
    if old.len() == 0 || keys.len() == 0 {
        Seq::empty()
    } else {
        refined(old.drop_last(), keys.drop_last()) + split_block(old.last(), keys.last())
    }
}




/// The distinct keys of a block in order of first appearance.
fn distinct_keys(ks: &Vec<Vec<u8>>) -> (r: Vec<Vec<u8>>)
    ensures
        r.deep_view() == first_keys(ks.deep_view()),
{
    let ghost kv = ks.deep_view();
    let mut bkeys: Vec<Vec<u8>> = Vec::new();
    let mut i: usize = 0;
    proof {
        assert(kv.take(0) =~= Seq::<Seq<u8>>::empty());
        assert(bkeys.deep_view() =~= Seq::<Seq<u8>>::empty());
    }
    while i < ks.len()
        invariant
            i <= ks.len(),
            kv == ks.deep_view(),
            bkeys.deep_view() == first_keys(kv.take(i as int)),
        decreases ks.len() - i,
    {
        let ghost f = bkeys.deep_view();
        proof {
            assert(kv[i as int] == ks@[i as int]@);
            assert(kv.take(i + 1).drop_last() =~= kv.take(i as int));
            assert(kv.take(i + 1).last() == kv[i as int]);
        }
        let mut c: usize = 0;
        while c < bkeys.len() && !bytes_eq(&bkeys[c], &ks[i])
            invariant
                c <= bkeys.len(),
                i < ks.len(),
                f == bkeys.deep_view(),
                forall|y: int| 0 <= y < c ==> (#[trigger] f[y]) != ks@[i as int]@,
            decreases bkeys.len() - c,
        {
            proof {
                assert(f[c as int] == bkeys@[c as int]@);
            }
            c += 1;
        }
        if c == bkeys.len() {
            let k = copy_bytes(&ks[i]);
            bkeys.push(k);
            proof {
                assert(!f.contains(kv[i as int])) by {
                    if f.contains(kv[i as int]) {
                        let w = choose|w: int| 0 <= w < f.len() && f[w] == kv[i as int];
                    }
                }
                assert(bkeys.deep_view() =~= f.push(k@));
            }
        } else {
            proof {
                assert(f[c as int] == bkeys@[c as int]@);
                assert(f.contains(kv[i as int]));
            }
        }
        i += 1;
    }
    proof {
        assert(kv.take(ks.len() as int) =~= kv);
    }
    bkeys
}

/// The tuples of a block whose key is `key`, in order.
fn collect_bucket(blk: &Vec<Vec<i64>>, ks: &Vec<Vec<u8>>, key: &Vec<u8>) -> (nb: Vec<Vec<i64>>)
    requires
        ks.len() == blk.len(),
    ensures
        nb.deep_view() == bucket(blk.deep_view(), ks.deep_view(), key@),
{
    let ghost bv = blk.deep_view();
    let ghost kv = ks.deep_view();
    let mut nb: Vec<Vec<i64>> = Vec::new();
    let mut i: usize = 0;
    proof {
        assert(nb.deep_view() =~= bucket(bv.take(0), kv.take(0), key@));
    }
    while i < blk.len()
        invariant
            i <= blk.len(),
            ks.len() == blk.len(),
            bv == blk.deep_view(),
            kv == ks.deep_view(),
            nb.deep_view() == bucket(bv.take(i as int), kv.take(i as int), key@),
        decreases blk.len() - i,
    {
        proof {
            assert(bv.take(i + 1).drop_last() =~= bv.take(i as int));
            assert(kv.take(i + 1).drop_last() =~= kv.take(i as int));
            assert(bv.take(i + 1).last() == blk@[i as int]@);
            assert(kv.take(i + 1).last() == ks@[i as int]@);
        }
        if bytes_eq(&ks[i], key) {
            let row = crate::util::copy_tuple(blk[i].as_slice());
            let ghost before = nb.deep_view();
            proof {
                lemma_tuple_deep_view(row);
            }
            nb.push(row);
            proof {
                assert(nb.deep_view() =~= before.push(row@));
            }
        }
        i += 1;
    }
    proof {
        assert(bv.take(blk.len() as int) =~= bv);
        assert(kv.take(blk.len() as int) =~= kv);
    }
    nb
}

/// A partition of tuples into blocks.
pub struct TuplePartition {
    pub blocks: Vec<Vec<Vec<i64>>>,
}

impl TuplePartition {
    /// One block with all `arity`-tuples over the universe.
    pub fn from_model(model: &Model, arity: usize) -> (r: Result<Self, String>)
        requires
            arity == 0 || model.universe.len() > 0,
        ensures
            match r {
                Ok(p) => (arity == 0 || tuple_count(model.universe.len() as nat, arity as nat) <= MAX_TUPLE_PARTITION)
                    && p.blocks.deep_view() == seq![all_tuples(model.universe@, arity as nat)],
                Err(e) => arity > 0 && tuple_count(model.universe.len() as nat, arity as nat)
                    > MAX_TUPLE_PARTITION && e@ == enumerate_error(
                    arity as nat,
                    tuple_count(model.universe.len() as nat, arity as nat),
                ),
            },
    {
        match enumerate_tuples(model, arity) {
            Ok(ts) => {
                let mut blocks: Vec<Vec<Vec<i64>>> = Vec::new();
                let ghost tv = ts.deep_view();
                blocks.push(ts);
                proof {
                    assert(blocks.deep_view() =~= seq![tv]);
                }
                Ok(TuplePartition { blocks })
            },
            Err(e) => Err(e),
        }
    }

    /// Splits every block by the keys of its tuples: `keys[b][i]` is the key of
    /// the `i`-th tuple of block `b`. Buckets come in order of first appearance
    /// of their key, and keep the order of their tuples.
    #[verifier::rlimit(40)]
    pub fn refine(&mut self, keys: &Vec<Vec<Vec<u8>>>)
        requires
            keys.len() == old(self).blocks.len(),
            forall|b: int| 0 <= b < keys.len() ==> (#[trigger] keys@[b]).len() == old(self).blocks@[b].len(),
        ensures
            final(self).blocks.deep_view() == refined(old(self).blocks.deep_view(), keys.deep_view()),
    {
        let ghost ov = self.blocks.deep_view();
        let ghost kv = keys.deep_view();
        let mut out: Vec<Vec<Vec<i64>>> = Vec::new();
        let mut b: usize = 0;
        proof {
            assert(out.deep_view() =~= refined(ov.take(0), kv.take(0)));
        }
        while b < self.blocks.len()
            invariant
                b <= self.blocks.len(),
                ov == self.blocks.deep_view(),
                kv == keys.deep_view(),
                keys.len() == self.blocks.len(),
                forall|x: int| 0 <= x < keys.len() ==> (#[trigger] keys@[x]).len() == self.blocks@[x].len(),
                out.deep_view() == refined(ov.take(b as int), kv.take(b as int)),
            decreases self.blocks.len() - b,
        {
            let blk = &self.blocks[b];
            let ks = &keys[b];
            let bkeys = distinct_keys(ks);
            let ghost start = out.deep_view();
            let ghost fk = bkeys.deep_view();
            let ghost sb = split_block(blk.deep_view(), ks.deep_view());
            let mut c: usize = 0;
            proof {
                assert(start + sb.take(0) =~= start);
            }
            while c < bkeys.len()
                invariant
                    c <= bkeys.len(),
                    ks.len() == blk.len(),
                    fk == bkeys.deep_view(),
                    fk == first_keys(ks.deep_view()),
                    sb == split_block(blk.deep_view(), ks.deep_view()),
                    out.deep_view() == start + sb.take(c as int),
                decreases bkeys.len() - c,
            {
                let nb = collect_bucket(blk, ks, &bkeys[c]);
                let ghost before = out.deep_view();
                proof {
                    assert(fk[c as int] == bkeys@[c as int]@);
                    assert(sb[c as int] == nb.deep_view());
                }
                out.push(nb);
                proof {
                    assert(out.deep_view() =~= before.push(sb[c as int]));
                    assert(sb.take(c + 1) =~= sb.take(c as int).push(sb[c as int]));
                }
                c += 1;
            }
            proof {
                assert(sb.take(bkeys.len() as int) =~= sb);
                assert(ov.take(b + 1).drop_last() =~= ov.take(b as int));
                assert(kv.take(b + 1).drop_last() =~= kv.take(b as int));
                assert(ov.take(b + 1).last() == blk.deep_view());
                assert(kv.take(b + 1).last() == ks.deep_view());
            }
            b += 1;
        }
        let ghost nv = out.deep_view();
        self.blocks = out;
        proof {
            assert(ov.take(ov.len() as int) =~= ov);
            assert(kv.take(kv.len() as int) =~= kv);
        }
    }

    /// No block holds both a tuple of the target and a tuple outside it.
    pub fn is_target_pure(&self, target: &Relation) -> (r: bool)
        ensures
            r == blocks_pure(self.blocks.deep_view(), *target),
    {
        let ghost bv = self.blocks.deep_view();
        let mut n: usize = 0;
        while n < self.blocks.len()
            invariant
                n <= self.blocks.len(),
                bv == self.blocks.deep_view(),
                forall|m: int, p: int, q: int|
                    0 <= m < n && 0 <= p < bv[m].len() && 0 <= q < bv[m].len() ==> target.has(#[trigger] bv[m][p])
                        == target.has(#[trigger] bv[m][q]),
            decreases self.blocks.len() - n,
        {
            let block = &self.blocks[n];
            let mut seen_in = false;
            let mut seen_out = false;
            let mut i: usize = 0;
            proof {
                assert(bv[n as int] == block.deep_view());
            }
            while i < block.len()
                invariant
                    i <= block.len(),
                    bv == self.blocks.deep_view(),
                    n < bv.len(),
                    bv[n as int] == block.deep_view(),
                    seen_in == exists|p: int| 0 <= p < i && target.has(#[trigger] bv[n as int][p]),
                    seen_out == exists|p: int| 0 <= p < i && !target.has(#[trigger] bv[n as int][p]),
                    block.len() == bv[n as int].len(),
                    !(seen_in && seen_out),
                decreases block.len() - i,
            {
                proof {
                    assert(block.deep_view()[i as int] == block@[i as int]@);
                }
                let inside = target.contains(block[i].as_slice());
                let ghost row = bv[n as int][i as int];
                if inside {
                    seen_in = true;
                } else {
                    seen_out = true;
                }
                proof {
                    assert(inside == target.has(row));
                    if seen_in {
                        if inside {
                            assert(0 <= i < i + 1 && target.has(bv[n as int][i as int]));
                        } else {
                            let p = choose|p: int| 0 <= p < i && target.has(#[trigger] bv[n as int][p]);
                            assert(0 <= p < i + 1);
                        }
                    } else {
                        assert forall|p: int| 0 <= p < i + 1 implies !target.has(#[trigger] bv[n as int][p]) by {
                            if p == i {
                            }
                        }
                    }
                    if seen_out {
                        if !inside {
                            assert(0 <= i < i + 1 && !target.has(bv[n as int][i as int]));
                        } else {
                            let p = choose|p: int| 0 <= p < i && !target.has(#[trigger] bv[n as int][p]);
                            assert(0 <= p < i + 1);
                        }
                    } else {
                        assert forall|p: int| 0 <= p < i + 1 implies target.has(#[trigger] bv[n as int][p]) by {
                            if p == i {
                            }
                        }
                    }
                }
                if seen_in && seen_out {
                    proof {
                        let p = choose|p: int| 0 <= p < i + 1 && target.has(#[trigger] bv[n as int][p]);
                        let q = choose|p: int| 0 <= p < i + 1 && !target.has(#[trigger] bv[n as int][p]);
                        assert(0 <= p < bv[n as int].len() && 0 <= q < bv[n as int].len());
                        assert(bv[n as int].len() == block.len());
                        if blocks_pure(bv, *target) {
                            assert(target.has(bv[n as int][p]) == target.has(bv[n as int][q]));
                        }
                    }
                    return false;
                }
                i += 1;
            }
            proof {
                assert forall|m: int, p: int, q: int|
                    0 <= m < n + 1 && 0 <= p < bv[m].len() && 0 <= q < bv[m].len() implies target.has(#[trigger] bv[m][p])
                        == target.has(#[trigger] bv[m][q]) by {
                    if m == n {
                        if target.has(bv[m][p]) != target.has(bv[m][q]) {
                            if target.has(bv[m][p]) {
                                assert(seen_in);
                                assert(seen_out);
                            } else {
                                assert(seen_out);
                                assert(seen_in);
                            }
                        }
                    }
                }
            }
            n += 1;
        }
        true
    }
}

/// Some operation has positive arity.
pub fn has_nontrivial_ops(model: &Model) -> (r: bool)
    ensures
        r == exists|i: int| 0 <= i < model.operations.len() && (#[trigger] model.operations@[i]).arity >= 1,
{
    let mut i: usize = 0;
    while i < model.operations.len()
        invariant
            i <= model.operations.len(),
            forall|k: int| 0 <= k < i ==> (#[trigger] model.operations@[k]).arity < 1,
        decreases model.operations.len() - i,
    {
        if model.operations[i].arity >= 1 {
            return true;
        }
        i += 1;
    }
    false
}

/// The `arity`-tuples cannot be enumerated: there are more than `MAX_TUPLE_PARTITION`.
pub open spec fn tuples_refused(model: Model, arity: nat) -> bool {
    arity > 0 && tuple_count(model.universe.len() as nat, arity) > MAX_TUPLE_PARTITION
}

/// The error for refused tuples.
pub open spec fn refused_error(model: Model, arity: nat) -> Seq<char> {
    enumerate_error(arity, tuple_count(model.universe.len() as nat, arity))
}

/// The partition of `tuples` by `keys` is pure for the target.
pub open spec fn keyed_pure(tuples: Seq<Seq<i64>>, keys: Seq<Seq<u8>>, target: Relation) -> bool {
    blocks_pure(refined(seq![tuples], seq![keys]), target)
}

/// Splits the tuples by key and tells whether every block is pure for the target.
pub fn keyed_split_pure(tuples: Vec<Vec<i64>>, keys: Vec<Vec<u8>>, target: &Relation) -> (r: bool)
    requires
        keys.len() == tuples.len(),
    ensures
        r == keyed_pure(tuples.deep_view(), keys.deep_view(), *target),
{
    let ghost tv = tuples.deep_view();
    let ghost kv = keys.deep_view();
    let mut blocks: Vec<Vec<Vec<i64>>> = Vec::new();
    blocks.push(tuples);
    let mut ks: Vec<Vec<Vec<u8>>> = Vec::new();
    ks.push(keys);
    proof {
        assert(blocks.deep_view() =~= seq![tv]);
        assert(ks.deep_view() =~= seq![kv]);
    }
    let mut p = TuplePartition { blocks };
    p.refine(&ks);
    p.is_target_pure(target)
}

} // verus!
