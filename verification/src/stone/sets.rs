//! Finite sets of elements held as strictly increasing vectors.

use vstd::prelude::*;

use crate::stone::spec::Elem;

verus! {

/// `s` is strictly increasing.
pub open spec fn increasing(s: Seq<Elem>) -> bool {
    forall|i: int, j: int| 0 <= i < j < s.len() ==> s[i] < s[j]
}

/// Membership test.
pub fn contains(s: &Vec<Elem>, x: Elem) -> (r: bool)
    ensures
        r == s@.contains(x),
{
    let mut i: usize = 0;
    while i < s.len()
        invariant
            i <= s.len(),
            forall|j: int| 0 <= j < i ==> s@[j] != x,
        decreases s.len() - i,
    {
        if s[i] == x {
            return true;
        }
        i += 1;
    }
    false
}

/// Copy of a vector of elements.
pub fn copy_elems(s: &Vec<Elem>) -> (r: Vec<Elem>)
    ensures
        r@ == s@,
{
    let mut r: Vec<Elem> = Vec::new();
    let mut i: usize = 0;
    while i < s.len()
        invariant
            i <= s.len(),
            r@ == s@.take(i as int),
        decreases s.len() - i,
    {
        r.push(s[i]);
        i += 1;
        proof {
            assert(r@ =~= s@.take(i as int));
        }
    }
    proof {
        assert(r@ =~= s@);
    }
    r
}

/// Copy of a slice of elements.
pub fn copy_elems_slice(s: &[Elem]) -> (r: Vec<Elem>)
    ensures
        r@ == s@,
{
    let mut r: Vec<Elem> = Vec::new();
    let mut i: usize = 0;
    while i < s.len()
        invariant
            i <= s.len(),
            r@ == s@.take(i as int),
        decreases s.len() - i,
    {
        r.push(s[i]);
        i += 1;
        proof {
            assert(r@ =~= s@.take(i as int));
        }
    }
    proof {
        assert(r@ =~= s@);
    }
    r
}

/// Inserts `x` into a strictly increasing vector.
pub fn insert(s: &mut Vec<Elem>, x: Elem)
    requires
        increasing(old(s)@),
    ensures
        increasing(final(s)@),
        final(s)@.to_set() == old(s)@.to_set().insert(x),
{
    let mut p: usize = 0;
    while p < s.len() && s[p] < x
        invariant
            p <= s.len(),
            increasing(s@),
            forall|k: int| 0 <= k < p ==> s@[k] < x,
        decreases s.len() - p,
    {
        p += 1;
    }
    if p < s.len() && s[p] == x {
        proof {
            assert(s@.to_set().insert(x) =~= s@.to_set());
        }
        return;
    }
    let ghost before = s@;
    s.insert(p, x);
    proof {
        assert forall|i: int, j: int| 0 <= i < j < s@.len() implies s@[i] < s@[j] by {
            if j < p {
            } else if j == p {
            } else if i < p {
                assert(s@[j] == before[j - 1]);
                assert(before[p as int] > x);
            } else if i == p {
                assert(s@[j] == before[j - 1]);
                assert(before[p as int] > x);
                assert(before[p as int] <= before[j - 1]);
            } else {
                assert(s@[i] == before[i - 1]);
                assert(s@[j] == before[j - 1]);
            }
        }
        assert forall|y: Elem| s@.to_set().contains(y) <==> before.to_set().insert(x).contains(y) by {
            if s@.contains(y) {
                let k = choose|k: int| 0 <= k < s@.len() && s@[k] == y;
                if k < p {
                    assert(before[k] == y);
                } else if k > p {
                    assert(before[k - 1] == y);
                }
            }
            if before.contains(y) {
                let k = choose|k: int| 0 <= k < before.len() && before[k] == y;
                if k < p {
                    assert(s@[k] == y);
                } else {
                    assert(s@[k + 1] == y);
                }
            }
            if y == x {
                assert(s@[p as int] == x);
            }
        }
        assert(s@.to_set() =~= before.to_set().insert(x));
    }
}

/// The set of the entries of `v`, as a strictly increasing vector.
pub fn set_of(v: &Vec<Elem>) -> (r: Vec<Elem>)
    ensures
        increasing(r@),
        r@.to_set() == v@.to_set(),
{
    let mut r: Vec<Elem> = Vec::new();
    let mut i: usize = 0;
    proof {
        assert(r@.to_set() =~= v@.take(0).to_set());
    }
    while i < v.len()
        invariant
            i <= v.len(),
            increasing(r@),
            r@.to_set() == v@.take(i as int).to_set(),
        decreases v.len() - i,
    {
        insert(&mut r, v[i]);
        proof {
            assert(v@.take(i + 1) =~= v@.take(i as int).push(v@[i as int]));
            crate::util::lemma_push_to_set(v@.take(i as int), v@[i as int]);
        }
        i += 1;
    }
    proof {
        assert(v@.take(v.len() as int) =~= v@);
    }
    r
}

/// Two strictly increasing lists with the same elements are equal.
pub proof fn lemma_increasing_unique(a: Seq<Elem>, b: Seq<Elem>)
    requires
        increasing(a),
        increasing(b),
        a.to_set() == b.to_set(),
    ensures
        a == b,
    decreases a.len() + b.len(),
{
    if a.len() == 0 {
        if b.len() > 0 {
            assert(b.to_set().contains(b[0]));
            assert(a.to_set().contains(b[0]));
        }
    } else if b.len() == 0 {
        assert(a.to_set().contains(a[0]));
        assert(b.to_set().contains(a[0]));
    } else {
        let la = a.last();
        let lb = b.last();
        assert(a.to_set().contains(la));
        assert(b.to_set().contains(lb));
        assert(b.contains(la));
        assert(a.contains(lb));
        let ia = choose|i: int| 0 <= i < a.len() && a[i] == lb;
        let ib = choose|i: int| 0 <= i < b.len() && b[i] == la;
        assert(la == lb) by {
            if la < lb {
                assert(a[ia] <= a[a.len() - 1]) by {
                    if ia < a.len() - 1 {
                    }
                }
            } else if lb < la {
                assert(b[ib] <= b[b.len() - 1]) by {
                    if ib < b.len() - 1 {
                    }
                }
            }
        }
        let da = a.drop_last();
        let db = b.drop_last();
        assert forall|x: Elem| da.to_set().contains(x) <==> db.to_set().contains(x) by {
            if da.contains(x) {
                let i = choose|i: int| 0 <= i < da.len() && da[i] == x;
                assert(a[i] == x);
                assert(a.to_set().contains(x));
                assert(b.contains(x));
                let j = choose|j: int| 0 <= j < b.len() && b[j] == x;
                assert(x < la);
                assert(j != b.len() - 1);
                assert(db[j] == x);
            }
            if db.contains(x) {
                let i = choose|i: int| 0 <= i < db.len() && db[i] == x;
                assert(b[i] == x);
                assert(b.to_set().contains(x));
                assert(a.contains(x));
                let j = choose|j: int| 0 <= j < a.len() && a[j] == x;
                assert(x < lb);
                assert(j != a.len() - 1);
                assert(da[j] == x);
            }
        }
        assert(da.to_set() =~= db.to_set());
        lemma_increasing_unique(da, db);
        assert(a =~= da.push(la));
        assert(b =~= db.push(lb));
    }
}

/// Equality of element lists.
pub fn elems_eq(a: &Vec<Elem>, b: &Vec<Elem>) -> (r: bool)
    ensures
        r == (a@ == b@),
{
    if a.len() != b.len() {
        return false;
    }
    let mut i: usize = 0;
    while i < a.len()
        invariant
            i <= a.len(),
            a.len() == b.len(),
            forall|j: int| 0 <= j < i ==> a@[j] == b@[j],
        decreases a.len() - i,
    {
        if a[i] != b[i] {
            return false;
        }
        i += 1;
    }
    proof {
        assert(a@ =~= b@);
    }
    true
}

/// The strictly increasing list of a finite set.
pub open spec fn sorted_list(s: Set<Elem>) -> Seq<Elem> {
    choose|l: Seq<Elem>| increasing(l) && l.to_set() == s
}

/// A strictly increasing list is the sorted list of its set.
pub proof fn lemma_sorted_list(l: Seq<Elem>)
    requires
        increasing(l),
    ensures
        sorted_list(l.to_set()) == l,
{
    let c = sorted_list(l.to_set());
    assert(increasing(c) && c.to_set() == l.to_set());
    lemma_increasing_unique(c, l);
}

/// The order of elements as a total order.
pub open spec fn elem_leq() -> spec_fn(Elem, Elem) -> bool {
    |a: Elem, b: Elem| a <= b
}

/// The entries of `v` sorted in non-decreasing order.
pub fn sort_elems(v: &Vec<Elem>) -> (r: Vec<Elem>)
    ensures
        r@ == v@.sort_by(elem_leq()),
{
    let mut r = copy_elems(v);
    let mut i: usize = 1;
    proof {
        broadcast use vstd::seq_lib::group_to_multiset_ensures;
    }
    if r.len() <= 1 {
        proof {
            lemma_sorted_is_sort(r@, v@);
        }
        return r;
    }
    while i < r.len()
        invariant
            1 <= i <= r.len(),
            r.len() == v.len(),
            r@.to_multiset() == v@.to_multiset(),
            forall|a: int, b: int| 0 <= a < b < i ==> r@[a] <= r@[b],
        decreases r.len() - i,
    {
        let mut j: usize = i;
        while j > 0 && r[j - 1] > r[j]
            invariant
                0 <= j <= i < r.len(),
                r.len() == v.len(),
                r@.to_multiset() == v@.to_multiset(),
                forall|a: int, b: int| 0 <= a < b <= i && b != j ==> r@[a] <= r@[b],
                forall|a: int, b: int| 0 <= a < j && j < b <= i ==> r@[a] <= r@[b],
            decreases j,
        {
            let x = r[j - 1];
            let y = r[j];
            let ghost before = r@;
            r.set(j - 1, y);
            r.set(j, x);
            proof {
                assert(r@ =~= before.update(j - 1, y).update(j as int, x));
                crate::first_order::models::lemma_swap_multiset(before, j - 1, j as int);
            }
            j -= 1;
        }
        proof {
            assert forall|a: int, b: int| 0 <= a < b < i + 1 implies r@[a] <= r@[b] by {
                if b == j && j > 0 && a < j {
                    assert(r@[a] <= r@[j - 1]);
                    assert(r@[j - 1] <= r@[j as int]);
                }
            }
        }
        i += 1;
    }
    proof {
        lemma_sorted_is_sort(r@, v@);
    }
    r
}

/// A sorted permutation is the sort.
pub proof fn lemma_sorted_is_sort(r: Seq<Elem>, v: Seq<Elem>)
    requires
        r.to_multiset() == v.to_multiset(),
        forall|a: int, b: int| 0 <= a < b < r.len() ==> r[a] <= r[b],
    ensures
        r == v.sort_by(elem_leq()),
{
    let leq = elem_leq();
    assert(vstd::relations::total_ordering(leq));
    v.lemma_sort_by_ensures(leq);
    assert(vstd::relations::sorted_by(r, leq)) by {
        assert forall|a: int, b: int| 0 <= a < b < r.len() implies #[trigger] leq(r[a], r[b]) by {}
    }
    vstd::seq_lib::lemma_sorted_unique(r, v.sort_by(leq), leq);
}

} // verus!
