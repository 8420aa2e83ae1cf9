//! Finite first-order models.

use vstd::prelude::*;

use super::relops::{Operation, Relation};

verus! {

/// `s` is sorted in non-decreasing order.
pub open spec fn sorted(s: Seq<i64>) -> bool {
    forall|i: int, j: int| 0 <= i <= j < s.len() ==> s[i] <= s[j]
}

/// A model: a universe of elements with named relations and operations.
pub struct Model {
    pub universe: Vec<i64>,
    pub relations: Vec<Relation>,
    pub operations: Vec<Operation>,
}

impl Model {
    /// All relations and operations are well formed, and no two share a name.
    pub open spec fn wf(&self) -> bool {
        &&& forall|i: int| 0 <= i < self.relations.len() ==> (#[trigger] self.relations@[i]).wf()
        &&& forall|i: int| 0 <= i < self.operations.len() ==> (#[trigger] self.operations@[i]).wf()
        &&& forall|i: int, j: int|
            0 <= i < j < self.operations.len() ==> (#[trigger] self.operations@[i]).sym@
                != (#[trigger] self.operations@[j]).sym@
        &&& forall|i: int, j: int|
            0 <= i < j < self.relations.len() ==> (#[trigger] self.relations@[i]).sym@
                != (#[trigger] self.relations@[j]).sym@
    }

    /// Builds a model; the universe is stored sorted.
    pub fn new(universe: Vec<i64>, relations: Vec<Relation>, operations: Vec<Operation>) -> (m: Self)
        ensures
            sorted(m.universe@),
            m.universe@.to_multiset() == universe@.to_multiset(),
            m.relations == relations,
            m.operations == operations,
    {
        let u = sort_elems(universe);
        Model { universe: u, relations, operations }
    }
}

/// Sorts a vector of elements (insertion sort).
pub fn sort_elems(v: Vec<i64>) -> (r: Vec<i64>)
    ensures
        sorted(r@),
        r@.to_multiset() == v@.to_multiset(),
{
    let mut r = v;
    let ghost orig = r@;
    let mut i: usize = 1;
    proof {
        broadcast use vstd::seq_lib::group_to_multiset_ensures;
    }
    if r.len() <= 1 {
        proof {
            assert(sorted(r@));
        }
        return r;
    }
    while i < r.len()
        invariant
            1 <= i <= r.len(),
            r.len() == orig.len(),
            sorted(r@.take(i as int)),
            r@.to_multiset() == orig.to_multiset(),
        decreases r.len() - i,
    {
        let mut j: usize = i;
        proof {
            assert forall|a: int, b: int| 0 <= a <= b < i implies r@[a] <= r@[b] by {
                assert(r@.take(i as int)[a] == r@[a]);
                assert(r@.take(i as int)[b] == r@[b]);
            }
        }
        while j > 0 && r[j - 1] > r[j]
            invariant
                0 <= j <= i < r.len(),
                r.len() == orig.len(),
                r@.to_multiset() == orig.to_multiset(),
                forall|a: int, b: int| 0 <= a <= b <= i && a != j && b != j ==> r@[a] <= r@[b],
                forall|b: int| j < b <= i ==> r@[j as int] <= r@[b],
            decreases j,
        {
            let ghost before = r@;
            let x = r[j - 1];
            let y = r[j];
            r.set(j - 1, y);
            r.set(j, x);
            proof {
                broadcast use vstd::seq_lib::group_to_multiset_ensures;
                assert(r@ =~= before.update(j - 1, y).update(j as int, x));
                lemma_swap_multiset(before, j - 1, j as int);
            }
            j -= 1;
        }
        proof {
            assert forall|a: int, b: int| 0 <= a <= b < i + 1 implies #[trigger] r@.take(i + 1)[a] <= #[trigger] r@.take(i + 1)[b] by {
                if a == j && b != j && j > 0 {
                    assert(r@[j - 1] <= r@[j as int]);
                }
            }
        }
        i += 1;
    }
    proof {
        assert(r@.take(r.len() as int) =~= r@);
    }
    r
}

/// Swapping two positions keeps the multiset of elements.
pub proof fn lemma_swap_multiset<A>(s: Seq<A>, a: int, b: int)
    requires
        0 <= a < s.len(),
        0 <= b < s.len(),
    ensures
        s.update(a, s[b]).update(b, s[a]).to_multiset() == s.to_multiset(),
{
    broadcast use vstd::seq_lib::group_to_multiset_ensures;
    let s1 = s.update(a, s[b]);
    let s2 = s1.update(b, s[a]);
    vstd::seq_lib::to_multiset_update(s, a, s[b]);
    vstd::seq_lib::to_multiset_update(s1, b, s[a]);
    assert(s1[b] == s[b]);
    assert(s2.to_multiset() =~= s.to_multiset());
}

} // verus!
