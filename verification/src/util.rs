//! Small verified helpers on tuples of elements.

use vstd::prelude::*;

verus! {

/// All coordinates of `t` lie in `items`.
pub open spec fn all_in(t: Seq<i64>, items: Seq<i64>) -> bool {
    forall|i: int| 0 <= i < t.len() ==> items.contains(#[trigger] t[i])
}

/// `t` is an `n`-tuple over `items`.
pub open spec fn is_tuple_over(t: Seq<i64>, items: Seq<i64>, n: nat) -> bool {
    t.len() == n && all_in(t, items)
}

/// The set of an extended sequence.
pub proof fn lemma_push_to_set<A>(s: Seq<A>, x: A)
    ensures
        s.push(x).to_set() == s.to_set().insert(x),
{
    assert forall|a: A| #[trigger] s.push(x).to_set().contains(a) <==> s.to_set().insert(x).contains(a) by {
        if s.push(x).contains(a) && a != x {
            let k = choose|k: int| 0 <= k < s.push(x).len() && s.push(x)[k] == a;
            assert(s[k] == a);
        }
        if s.contains(a) {
            let k = choose|k: int| 0 <= k < s.len() && s[k] == a;
            assert(s.push(x)[k] == a);
        }
        if a == x {
            assert(s.push(x)[s.len() as int] == a);
        }
    }
    assert(s.push(x).to_set() =~= s.to_set().insert(x));
}

/// The deep view of a tuple is its view.
pub proof fn lemma_tuple_deep_view(t: Vec<i64>)
    ensures
        t.deep_view() == t@,
{
    assert(t.deep_view() =~= t@);
}

/// Fresh copy of a tuple.
pub fn copy_tuple(t: &[i64]) -> (r: Vec<i64>)
    ensures
        r@ == t@,
{
    let mut r: Vec<i64> = Vec::new();
    let mut i: usize = 0;
    while i < t.len()
        invariant
            i <= t.len(),
            r@ == t@.take(i as int),
        decreases t.len() - i,
    {
        r.push(t[i]);
        i += 1;
        proof {
            assert(r@ =~= t@.take(i as int));
        }
    }
    proof {
        assert(r@ =~= t@);
    }
    r
}

/// Equality of two tuples.
pub fn tuple_eq(a: &[i64], b: &[i64]) -> (r: bool)
    ensures
        r == (a@ == b@),
{
    if a.len() != b.len() {
        return false;
    }
    let mut i: usize = 0;
    while i < a.len()
        invariant
            i <= a.len(),
            a.len() == b.len(),
            forall|j: int| 0 <= j < i ==> a@[j] == b@[j],
        decreases a.len() - i,
    {
        if a[i] != b[i] {
            return false;
        }
        i += 1;
    }
    proof {
        assert(a@ =~= b@);
    }
    true
}

/// Membership of an element in a vector.
pub fn elem_in(items: &[i64], x: i64) -> (r: bool)
    ensures
        r == items@.contains(x),
{
    let mut i: usize = 0;
    while i < items.len()
        invariant
            i <= items.len(),
            forall|j: int| 0 <= j < i ==> items@[j] != x,
        decreases items.len() - i,
    {
        if items[i] == x {
            return true;
        }
        i += 1;
    }
    false
}

/// Membership of a tuple in a list of tuples.
pub fn rows_contain(rows: &Vec<Vec<i64>>, t: &[i64]) -> (r: bool)
    ensures
        r == rows.deep_view().contains(t@),
{
    let mut i: usize = 0;
    while i < rows.len()
        invariant
            i <= rows.len(),
            forall|j: int| 0 <= j < i ==> rows.deep_view()[j] != t@,
        decreases rows.len() - i,
    {
        proof {
            lemma_tuple_deep_view(rows@[i as int]);
        }
        if tuple_eq(&rows[i], t) {
            proof {
                assert(rows.deep_view()[i as int] == t@);
            }
            return true;
        }
        i += 1;
    }
    false
}

/// Tuple extended by one coordinate.
pub fn push_copy(t: &[i64], x: i64) -> (r: Vec<i64>)
    ensures
        r@ == t@.push(x),
{
    let mut r = copy_tuple(t);
    r.push(x);
    r
}

/// All `n`-tuples over `items` (first coordinate varies slowest).
pub fn cartesian_product(items: &Vec<i64>, n: usize) -> (result: Vec<Vec<i64>>)
    ensures
        forall|k: int|
            0 <= k < result.len() ==> is_tuple_over(#[trigger] result.deep_view()[k], items@, n as nat),
        forall|t: Seq<i64>| is_tuple_over(t, items@, n as nat) ==> #[trigger] result.deep_view().contains(t),
{
    let mut result: Vec<Vec<i64>> = Vec::new();
    result.push(Vec::new());
    proof {
        assert forall|t: Seq<i64>| is_tuple_over(t, items@, 0) implies #[trigger] result.deep_view().contains(t) by {
            assert(t =~= result.deep_view()[0]);
        }
    }
    let mut j: usize = 0;
    while j < n
        invariant
            j <= n,
            forall|k: int|
                0 <= k < result.len() ==> is_tuple_over(#[trigger] result.deep_view()[k], items@, j as nat),
            forall|t: Seq<i64>| is_tuple_over(t, items@, j as nat) ==> #[trigger] result.deep_view().contains(t),
        decreases n - j,
    {
        let mut next: Vec<Vec<i64>> = Vec::new();
        let mut p: usize = 0;
        while p < result.len()
            invariant
                p <= result.len(),
                forall|k: int|
                    0 <= k < result.len() ==> is_tuple_over(#[trigger] result.deep_view()[k], items@, j as nat),
                forall|k: int|
                    0 <= k < next.len() ==> is_tuple_over(#[trigger] next.deep_view()[k], items@, (j + 1) as nat),
                forall|pp: int, x: i64|
                    0 <= pp < p && items@.contains(x) ==> #[trigger] next.deep_view().contains(
                        result.deep_view()[pp].push(x),
                    ),
            decreases result.len() - p,
        {
            let mut q: usize = 0;
            while q < items.len()
                invariant
                    p < result.len(),
                    q <= items.len(),
                    forall|k: int|
                        0 <= k < result.len() ==> is_tuple_over(#[trigger] result.deep_view()[k], items@, j as nat),
                    forall|k: int|
                        0 <= k < next.len() ==> is_tuple_over(#[trigger] next.deep_view()[k], items@, (j + 1) as nat),
                    forall|pp: int, x: i64|
                        0 <= pp < p && items@.contains(x) ==> #[trigger] next.deep_view().contains(
                            result.deep_view()[pp].push(x),
                        ),
                    forall|qq: int|
                        0 <= qq < q ==> #[trigger] next.deep_view().contains(
                            result.deep_view()[p as int].push(items@[qq]),
                        ),
                decreases items.len() - q,
            {
                let row = push_copy(result[p].as_slice(), items[q]);
                let ghost old_next = next.deep_view();
                next.push(row);
                proof {
                    lemma_tuple_deep_view(row);
                    lemma_tuple_deep_view(result@[p as int]);
                    assert(next.deep_view() =~= old_next.push(row@));
                    assert forall|k: int|
                        0 <= k < next.len() implies is_tuple_over(#[trigger] next.deep_view()[k], items@, (j + 1) as nat) by {
                        if k < old_next.len() {
                            assert(next.deep_view()[k] == old_next[k]);
                        } else {
                            let t = next.deep_view()[k];
                            let base = result.deep_view()[p as int];
                            assert(t == base.push(items@[q as int]));
                            assert forall|i: int| 0 <= i < t.len() implies items@.contains(#[trigger] t[i]) by {
                                if i < base.len() {
                                    assert(t[i] == base[i]);
                                } else {
                                    assert(t[i] == items@[q as int]);
                                }
                            }
                        }
                    }
                    assert forall|pp: int, x: i64|
                        0 <= pp < p && items@.contains(x) implies #[trigger] next.deep_view().contains(
                            result.deep_view()[pp].push(x),
                        ) by {
                        assert(old_next.contains(result.deep_view()[pp].push(x)));
                        let w = choose|w: int| 0 <= w < old_next.len() && old_next[w] == result.deep_view()[pp].push(x);
                        assert(next.deep_view()[w] == old_next[w]);
                    }
                    assert forall|qq: int|
                        0 <= qq < q + 1 implies #[trigger] next.deep_view().contains(
                            result.deep_view()[p as int].push(items@[qq]),
                        ) by {
                        if qq < q {
                            assert(old_next.contains(result.deep_view()[p as int].push(items@[qq])));
                            let w = choose|w: int|
                                0 <= w < old_next.len() && old_next[w] == result.deep_view()[p as int].push(items@[qq]);
                            assert(next.deep_view()[w] == old_next[w]);
                        } else {
                            assert(next.deep_view()[old_next.len() as int] == result.deep_view()[p as int].push(items@[qq]));
                        }
                    }
                }
                q += 1;
            }
            proof {
                assert forall|pp: int, x: i64|
                    0 <= pp < p + 1 && items@.contains(x) implies #[trigger] next.deep_view().contains(
                        result.deep_view()[pp].push(x),
                    ) by {
                    if pp == p {
                        let qq = choose|qq: int| 0 <= qq < items@.len() && items@[qq] == x;
                        assert(next.deep_view().contains(result.deep_view()[p as int].push(items@[qq])));
                    }
                }
            }
            p += 1;
        }
        proof {
            assert forall|t: Seq<i64>| is_tuple_over(t, items@, (j + 1) as nat) implies #[trigger] next.deep_view().contains(t) by {
                let pre = t.take(j as int);
                assert(is_tuple_over(pre, items@, j as nat)) by {
                    assert forall|i: int| 0 <= i < pre.len() implies items@.contains(#[trigger] pre[i]) by {
                        assert(pre[i] == t[i]);
                    }
                }
                assert(result.deep_view().contains(pre));
                let pp = choose|pp: int| 0 <= pp < result.deep_view().len() && result.deep_view()[pp] == pre;
                assert(items@.contains(t[j as int]));
                assert(pre.push(t[j as int]) =~= t);
                assert(next.deep_view().contains(result.deep_view()[pp].push(t[j as int])));
            }
        }
        result = next;
        j += 1;
    }
    result
}

} // verus!
