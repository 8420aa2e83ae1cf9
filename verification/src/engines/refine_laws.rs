//! The refinement of a partition by keys splits each block exactly by key.

use vstd::prelude::*;

use crate::engines::partition::{bucket, first_keys, from_one_block, refined, refines, split_block};

verus! {

proof fn lemma_first_keys(ks: Seq<Seq<u8>>)
    ensures
        forall|k: Seq<u8>| #[trigger] first_keys(ks).contains(k) <==> ks.contains(k),
    decreases ks.len(),
{
    if ks.len() > 0 {
        let d = ks.drop_last();
        lemma_first_keys(d);
        let f = first_keys(d);
        let last = ks.last();
        let fk = first_keys(ks);
        assert forall|k: Seq<u8>| #[trigger] fk.contains(k) <==> ks.contains(k) by {
            if ks.contains(k) {
                let w = choose|w: int| 0 <= w < ks.len() && ks[w] == k;
                if w < d.len() {
                    assert(d[w] == k);
                    assert(d.contains(k));
                    assert(f.contains(k));
                    let v = choose|v: int| 0 <= v < f.len() && f[v] == k;
                    if !f.contains(last) {
                        assert(f.push(last)[v] == k);
                    }
                } else {
                    assert(k == last);
                    if !f.contains(last) {
                        assert(f.push(last)[f.len() as int] == k);
                    }
                }
            }
            if fk.contains(k) {
                let v = choose|v: int| 0 <= v < fk.len() && fk[v] == k;
                if v < f.len() {
                    assert(f[v] == k);
                    assert(f.contains(k));
                    assert(d.contains(k));
                    let w = choose|w: int| 0 <= w < d.len() && d[w] == k;
                    assert(ks[w] == k);
                } else {
                    assert(k == last);
                    assert(ks[ks.len() - 1] == k);
                }
            }
        }
    }
}

/// `v` is a tuple of the block with key `key`.
spec fn keyed_member(blk: Seq<Seq<i64>>, ks: Seq<Seq<u8>>, key: Seq<u8>, v: Seq<i64>) -> bool {
    exists|x: int| 0 <= x < blk.len() && ks[x] == key && blk[x] == v
}

proof fn lemma_bucket(blk: Seq<Seq<i64>>, ks: Seq<Seq<u8>>, key: Seq<u8>)
    requires
        blk.len() == ks.len(),
    ensures
        forall|p: int| 0 <= p < bucket(blk, ks, key).len() ==> keyed_member(blk, ks, key, #[trigger] bucket(blk, ks, key)[p]),
        forall|x: int| 0 <= x < blk.len() && ks[x] == key ==> bucket(blk, ks, key).contains(#[trigger] blk[x]),
    decreases blk.len(),
{
    if blk.len() > 0 {
        let bd = blk.drop_last();
        let kd = ks.drop_last();
        lemma_bucket(bd, kd, key);
        let r = bucket(bd, kd, key);
        let bk = bucket(blk, ks, key);
        if ks.last() == key {
            assert(bk == r.push(blk.last()));
        } else {
            assert(bk == r);
        }
        assert forall|p: int| 0 <= p < bk.len() implies keyed_member(blk, ks, key, #[trigger] bk[p]) by {
            if p < r.len() {
                assert(bk[p] == r[p]);
                assert(keyed_member(bd, kd, key, r[p]));
                let x = choose|x: int| 0 <= x < bd.len() && kd[x] == key && bd[x] == r[p];
                assert(blk[x] == bd[x] && ks[x] == kd[x]);
            } else {
                let x = blk.len() - 1;
                assert(blk[x] == blk.last() && ks[x] == ks.last());
            }
        }
        assert forall|x: int| 0 <= x < blk.len() && ks[x] == key implies bk.contains(#[trigger] blk[x]) by {
            if x < bd.len() {
                assert(bd[x] == blk[x] && kd[x] == ks[x]);
                assert(r.contains(bd[x]));
                let w = choose|w: int| 0 <= w < r.len() && r[w] == bd[x];
                assert(bk[w] == r[w]);
            } else {
                assert(blk[x] == blk.last() && ks[x] == ks.last());
                assert(bk[r.len() as int] == blk.last());
            }
        }
    }
}

/// Some bucket of `sb` holds both `u` and `v`.
spec fn share_bucket(sb: Seq<Seq<Seq<i64>>>, u: Seq<i64>, v: Seq<i64>) -> bool {
    exists|c: int| 0 <= c < sb.len() && sb[c].contains(u) && sb[c].contains(v)
}

/// `u` and `v` are tuples of the block with equal keys.
spec fn same_key_members(blk: Seq<Seq<i64>>, ks: Seq<Seq<u8>>, u: Seq<i64>, v: Seq<i64>) -> bool {
    exists|i: int, j: int| 0 <= i < blk.len() && 0 <= j < blk.len() && blk[i] == u && blk[j] == v && ks[i] == ks[j]
}

proof fn lemma_split_block(blk: Seq<Seq<i64>>, ks: Seq<Seq<u8>>)
    requires
        blk.len() == ks.len(),
    ensures
        forall|i: int, j: int|
            0 <= i < blk.len() && 0 <= j < blk.len() && ks[i] == ks[j] ==> #[trigger] share_bucket(
                split_block(blk, ks),
                blk[i],
                blk[j],
            ),
        forall|c: int, p: int, q: int|
            0 <= c < split_block(blk, ks).len() && 0 <= p < split_block(blk, ks)[c].len() && 0 <= q
                < split_block(blk, ks)[c].len() ==> #[trigger] same_key_members(
                blk,
                ks,
                split_block(blk, ks)[c][p],
                split_block(blk, ks)[c][q],
            ),
{
    let sb = split_block(blk, ks);
    let fk = first_keys(ks);
    lemma_first_keys(ks);
    assert forall|i: int, j: int| 0 <= i < blk.len() && 0 <= j < blk.len() && ks[i] == ks[j] implies #[trigger] share_bucket(
        sb,
        blk[i],
        blk[j],
    ) by {
        assert(ks.contains(ks[i]));
        assert(fk.contains(ks[i]));
        let c = choose|c: int| 0 <= c < fk.len() && fk[c] == ks[i];
        lemma_bucket(blk, ks, fk[c]);
        assert(sb[c] == bucket(blk, ks, fk[c]));
        assert(sb[c].contains(blk[i]));
        assert(sb[c].contains(blk[j]));
    }
    assert forall|c: int, p: int, q: int| 0 <= c < sb.len() && 0 <= p < sb[c].len() && 0 <= q < sb[c].len() implies #[trigger] same_key_members(
        blk,
        ks,
        sb[c][p],
        sb[c][q],
    ) by {
        let bk = bucket(blk, ks, fk[c]);
        assert(sb[c] == bk);
        lemma_bucket(blk, ks, fk[c]);
        assert(keyed_member(blk, ks, fk[c], bk[p]));
        assert(keyed_member(blk, ks, fk[c], bk[q]));
        let x = choose|x: int| 0 <= x < blk.len() && ks[x] == fk[c] && blk[x] == bk[p];
        let y = choose|y: int| 0 <= y < blk.len() && ks[y] == fk[c] && blk[y] == bk[q];
        assert(blk[x] == sb[c][p] && blk[y] == sb[c][q] && ks[x] == ks[y]);
    }
}

/// Tuples of one block with equal keys share a block of the refinement.
spec fn keeps_together(old: Seq<Seq<Seq<i64>>>, keys: Seq<Seq<Seq<u8>>>, new: Seq<Seq<Seq<i64>>>) -> bool {
    forall|b: int, i: int, j: int|
        0 <= b < old.len() && 0 <= i < old[b].len() && 0 <= j < old[b].len() && #[trigger] keys[b][i]
            == #[trigger] keys[b][j] ==> exists|n: int|
            0 <= n < new.len() && (#[trigger] new[n]).contains(old[b][i]) && new[n].contains(old[b][j])
}

/// Each block of the refinement holds tuples of one old block with equal keys.
spec fn splits_only(old: Seq<Seq<Seq<i64>>>, keys: Seq<Seq<Seq<u8>>>, new: Seq<Seq<Seq<i64>>>) -> bool {
    forall|n: int, p: int, q: int|
        0 <= n < new.len() && 0 <= p < new[n].len() && 0 <= q < new[n].len() ==> from_one_block(
            old,
            keys,
            #[trigger] new[n][p],
            #[trigger] new[n][q],
        )
}

proof fn lemma_keeps_together(old: Seq<Seq<Seq<i64>>>, keys: Seq<Seq<Seq<u8>>>)
    requires
        keys.len() == old.len(),
        forall|b: int| 0 <= b < old.len() ==> (#[trigger] keys[b]).len() == old[b].len(),
    ensures
        keeps_together(old, keys, refined(old, keys)),
    decreases old.len(),
{
    if old.len() > 0 {
        let od = old.drop_last();
        let kd = keys.drop_last();
        assert forall|b: int| 0 <= b < od.len() implies (#[trigger] kd[b]).len() == od[b].len() by {
            assert(kd[b] == keys[b] && od[b] == old[b]);
        }
        lemma_keeps_together(od, kd);
        let rd = refined(od, kd);
        let lb = old.len() - 1;
        let last = old[lb];
        let kl = keys[lb];
        let sb = split_block(last, kl);
        let nv = refined(old, keys);
        assert(old.last() == last && keys.last() == kl);
        assert(nv == rd + sb);
        lemma_split_block(last, kl);
        assert forall|b: int, i: int, j: int|
            0 <= b < old.len() && 0 <= i < old[b].len() && 0 <= j < old[b].len() && #[trigger] keys[b][i]
                == #[trigger] keys[b][j] implies exists|n: int|
                0 <= n < nv.len() && (#[trigger] nv[n]).contains(old[b][i]) && nv[n].contains(old[b][j]) by {
            if b < od.len() {
                assert(od[b] == old[b] && kd[b] == keys[b]);
                assert(kd[b][i] == kd[b][j]);
                let n = choose|n: int| 0 <= n < rd.len() && (#[trigger] rd[n]).contains(od[b][i]) && rd[n].contains(od[b][j]);
                assert(nv[n] == rd[n]);
            } else {
                assert(b == lb);
                assert(kl[i] == kl[j]);
                assert(share_bucket(sb, last[i], last[j]));
                let c = choose|c: int| 0 <= c < sb.len() && sb[c].contains(last[i]) && sb[c].contains(last[j]);
                assert(nv[rd.len() + c] == sb[c]);
            }
        }
    }
}

proof fn lemma_splits_only(old: Seq<Seq<Seq<i64>>>, keys: Seq<Seq<Seq<u8>>>)
    requires
        keys.len() == old.len(),
        forall|b: int| 0 <= b < old.len() ==> (#[trigger] keys[b]).len() == old[b].len(),
    ensures
        splits_only(old, keys, refined(old, keys)),
    decreases old.len(),
{
    if old.len() > 0 {
        let od = old.drop_last();
        let kd = keys.drop_last();
        assert forall|b: int| 0 <= b < od.len() implies (#[trigger] kd[b]).len() == od[b].len() by {
            assert(kd[b] == keys[b] && od[b] == old[b]);
        }
        lemma_splits_only(od, kd);
        let rd = refined(od, kd);
        let lb = old.len() - 1;
        let last = old[lb];
        let kl = keys[lb];
        let sb = split_block(last, kl);
        let nv = refined(old, keys);
        assert(old.last() == last && keys.last() == kl);
        assert(nv == rd + sb);
        lemma_split_block(last, kl);
        assert forall|n: int, p: int, q: int| 0 <= n < nv.len() && 0 <= p < nv[n].len() && 0 <= q < nv[n].len() implies from_one_block(
            old,
            keys,
            #[trigger] nv[n][p],
            #[trigger] nv[n][q],
        ) by {
            if n < rd.len() {
                assert(nv[n] == rd[n]);
                assert(from_one_block(od, kd, rd[n][p], rd[n][q]));
                let (b, i, j) = choose|b: int, i: int, j: int|
                    0 <= b < od.len() && 0 <= i < od[b].len() && 0 <= j < od[b].len() && od[b][i] == rd[n][p]
                        && od[b][j] == rd[n][q] && kd[b][i] == kd[b][j];
                assert(od[b] == old[b] && kd[b] == keys[b]);
                assert(old[b][i] == nv[n][p] && old[b][j] == nv[n][q]);
            } else {
                let c = n - rd.len();
                assert(nv[n] == sb[c]);
                assert(same_key_members(last, kl, sb[c][p], sb[c][q]));
                let (i, j) = choose|i: int, j: int|
                    0 <= i < last.len() && 0 <= j < last.len() && last[i] == sb[c][p] && last[j] == sb[c][q] && kl[i] == kl[j];
                assert(old[lb][i] == nv[n][p] && old[lb][j] == nv[n][q] && keys[lb][i] == keys[lb][j]);
            }
        }
        assert(splits_only(old, keys, nv));
    } else {
        assert(refined(old, keys) =~= Seq::<Seq<Seq<i64>>>::empty());
    }
}

/// Splitting every block by key refines the partition: tuples of one block
/// with equal keys end in one block, and each new block holds tuples of one
/// old block with one key.
pub proof fn lemma_refined(old: Seq<Seq<Seq<i64>>>, keys: Seq<Seq<Seq<u8>>>)
    requires
        keys.len() == old.len(),
        forall|b: int| 0 <= b < old.len() ==> (#[trigger] keys[b]).len() == old[b].len(),
    ensures
        refines(old, keys, refined(old, keys)),
{
    let nv = refined(old, keys);
    lemma_keeps_together(old, keys);
    lemma_splits_only(old, keys);
}

/// The refinement by keys is pure for a target exactly when, within each
/// block, tuples with equal keys are both in the target or both outside it.
pub proof fn law_refined_pure_iff_keys_agree(
    old: Seq<Seq<Seq<i64>>>,
    keys: Seq<Seq<Seq<u8>>>,
    target: crate::first_order::relops::Relation,
)
    requires
        keys.len() == old.len(),
        forall|b: int| 0 <= b < old.len() ==> (#[trigger] keys[b]).len() == old[b].len(),
    ensures
        crate::engines::partition::blocks_pure(refined(old, keys), target)
            == crate::engines::partition::key_pure(old, keys, target),
{
    lemma_refined(old, keys);
    crate::engines::partition::lemma_refine_pure(old, keys, refined(old, keys), target);
}


/// A split by keys finds the target definable exactly when any two tuples
/// with equal keys are both in the target or both outside it.
pub proof fn law_keyed_pure_iff_keys_agree(
    ts: Seq<Seq<i64>>,
    keys: Seq<Seq<u8>>,
    target: crate::first_order::relops::Relation,
)
    requires
        keys.len() == ts.len(),
    ensures
        crate::engines::partition::keyed_pure(ts, keys, target) <==> (forall|i: int, j: int|
            0 <= i < ts.len() && 0 <= j < ts.len() && #[trigger] keys[i] == #[trigger] keys[j] ==> target.has(ts[i])
                == target.has(ts[j])),
{
    let old = seq![ts];
    let ks = seq![keys];
    assert forall|b: int| 0 <= b < old.len() implies (#[trigger] ks[b]).len() == old[b].len() by {}
    law_refined_pure_iff_keys_agree(old, ks, target);
    if crate::engines::partition::key_pure(old, ks, target) {
        assert forall|i: int, j: int|
            0 <= i < ts.len() && 0 <= j < ts.len() && #[trigger] keys[i] == #[trigger] keys[j] implies target.has(ts[i])
                == target.has(ts[j]) by {
            assert(ks[0][i] == keys[i] && ks[0][j] == keys[j]);
            assert(old[0][i] == ts[i] && old[0][j] == ts[j]);
        }
    }
    if forall|i: int, j: int|
        0 <= i < ts.len() && 0 <= j < ts.len() && #[trigger] keys[i] == #[trigger] keys[j] ==> target.has(ts[i])
            == target.has(ts[j]) {
        assert forall|b: int, i: int, j: int|
            0 <= b < old.len() && 0 <= i < old[b].len() && 0 <= j < old[b].len() && ks[b][i] == ks[b][j] implies target.has(
                #[trigger] old[b][i],
            ) == target.has(#[trigger] old[b][j]) by {
            assert(b == 0);
            assert(keys[i] == keys[j]);
        }
    }
}

} // verus!
