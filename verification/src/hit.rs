//! Configuration of the splitting search and the tuple histories it grows.

use vstd::prelude::*;

use crate::first_order::relops::{Operation, Relation};
use crate::unary::{push_u32_le, u32_le};

verus! {

/// Order in which the tree of blocks is explored.
#[derive(Clone, Copy, Debug, PartialEq, Eq)]
pub enum ExploreOrder {
    /// Depth first.
    Dfs,
    /// Breadth first, with a queue.
    Bfs,
}

/// Configuration of the splitting search.
#[derive(Clone, Copy, Debug)]
pub struct HitConfig {
    /// Pick the candidate of largest information gain at each step.
    pub use_information_gain: bool,
    /// Number of candidates sampled for the gain (`None`: all).
    pub ig_sample: Option<usize>,
    /// Apply the best candidate by gain (experimental).
    pub ig_experimental: bool,
    /// Skip candidates that neither split the block nor add new values.
    pub skip_useless_candidates: bool,
    /// Reject early when the target is not a union of approximate classes.
    pub approx_precheck: bool,
    /// Emit every constant at the start.
    pub emit_all_constants: bool,
    /// Bound on the number of splitting steps (`None`: unbounded).
    pub max_steps: Option<u64>,
    /// Simplify the resulting formula.
    pub simplify_formula: bool,
    /// Depth first or breadth first.
    pub explore_order: ExploreOrder,
    /// Largest number of children explored in parallel (1: serial).
    pub max_rayon_children: usize,
    /// Build the defining formula (otherwise decide only).
    pub synthesize_formula: bool,
    /// Soft bound on resident memory in KiB (`None`: no check).
    pub max_rss_kib: Option<u64>,
    /// On impure blocks, compare isomorphism types at once.
    pub eager_isotype_on_impure: bool,
}

/// The default configuration.
pub open spec fn default_config() -> HitConfig {
    HitConfig {
        use_information_gain: false,
        ig_sample: Some(20),
        ig_experimental: false,
        skip_useless_candidates: true,
        approx_precheck: false,
        emit_all_constants: true,
        max_steps: None,
        simplify_formula: false,
        explore_order: ExploreOrder::Dfs,
        max_rayon_children: 1,
        synthesize_formula: true,
        max_rss_kib: None,
        eager_isotype_on_impure: true,
    }
}

impl Default for HitConfig {
    fn default() -> (c: Self)
        ensures
            c == default_config(),
    {
        HitConfig {
            use_information_gain: false,
            ig_sample: Some(20),
            ig_experimental: false,
            skip_useless_candidates: true,
            approx_precheck: false,
            emit_all_constants: true,
            max_steps: None,
            simplify_formula: false,
            explore_order: ExploreOrder::Dfs,
            max_rayon_children: 1,
            synthesize_formula: true,
            max_rss_kib: None,
            eager_isotype_on_impure: true,
        }
    }
}

/// A witness of non-definability: tuples that no formula separates.
#[derive(Clone, Debug)]
pub struct Counterexample(pub Vec<Vec<i64>>);

/// Last position of `x` in `s` (`-1` when absent).
pub open spec fn last_pos(s: Seq<i64>, x: i64) -> int
    decreases s.len(),
{
    if s.len() == 0 {
        -1
    } else if s.last() == x {
        s.len() - 1
    } else {
        last_pos(s.drop_last(), x)
    }
}

/// First position of `x` in `s` at or after `from` (`-1` when absent).
pub open spec fn first_pos_from(s: Seq<i64>, x: i64, from: int) -> int
    decreases s.len() - from,
{
    if from < 0 || from >= s.len() {
        -1
    } else if s[from] == x {
        from
    } else {
        first_pos_from(s, x, from + 1)
    }
}

/// Position that names `x` in a history that extends `t`: its last position in `t`,
/// otherwise its position among the generated values (`-1` when absent).
pub open spec fn hist_index(t: Seq<i64>, h: Seq<i64>, x: i64) -> int {
    if t.contains(x) {
        last_pos(t, x)
    } else {
        first_pos_from(h, x, t.len() as int)
    }
}

/// Values of `h` at the positions `ti`.
pub open spec fn pick(h: Seq<i64>, ti: Seq<usize>) -> Seq<i64> {
    ti.map_values(|i: usize| h[i as int])
}

/// The tuple `t` with the values generated from it so far.
#[derive(Clone, Debug, Hash)]
pub struct TupleHistory {
    pub t: Vec<i64>,
    pub history: Vec<i64>,
    pub in_target: bool,
    pub has_generated: bool,
}

/// `t` lies in every target of its arity.
pub open spec fn in_all_targets(t: Seq<i64>, targets: Seq<&Relation>) -> bool {
    forall|i: int| 0 <= i < targets.len() && (#[trigger] targets[i]).arity == t.len() ==> targets[i].has(t)
}

impl TupleHistory {
    /// The history starts with `t`, and the generated values are new and pairwise distinct.
    pub open spec fn wf(&self) -> bool {
        &&& self.t@.len() <= self.history@.len()
        &&& self.history@.take(self.t@.len() as int) == self.t@
        &&& forall|i: int, j: int|
            self.t@.len() <= i < j < self.history@.len() ==> self.history@[i] != self.history@[j]
        &&& forall|i: int| self.t@.len() <= i < self.history@.len() ==> !self.t@.contains(#[trigger] self.history@[i])
    }

    /// History of `t`, with its membership in the targets of its arity.
    pub fn new(t: Vec<i64>, targets: &[&Relation]) -> (r: Self)
        ensures
            r.wf(),
            r.t@ == t@,
            r.history@ == t@,
            r.in_target == in_all_targets(t@, targets@),
            !r.has_generated,
    {
        let history = crate::util::copy_tuple(t.as_slice());
        let mut in_target = true;
        let mut i: usize = 0;
        while i < targets.len()
            invariant
                i <= targets.len(),
                in_target == forall|j: int|
                    0 <= j < i && (#[trigger] targets@[j]).arity == t@.len() ==> targets@[j].has(t@),
            decreases targets.len() - i,
        {
            let tg = targets[i];
            if tg.arity == t.len() && !tg.contains(t.as_slice()) {
                in_target = false;
            }
            i += 1;
        }
        proof {
            assert(history@.take(t@.len() as int) =~= t@);
        }
        TupleHistory { t, history, in_target, has_generated: false }
    }

    /// Position naming `x`, by scanning the tuple backwards and then the generated values.
    fn index_of_value(&self, x: i64) -> (r: Option<usize>)
        requires
            self.wf(),
        ensures
            match r {
                Some(i) => i == hist_index(self.t@, self.history@, x) && i < self.history@.len()
                    && self.history@[i as int] == x,
                None => !self.history@.contains(x),
            },
    {
        let n = self.t.len();
        let mut k: usize = n;
        proof {
            assert(self.t@.take(n as int) =~= self.t@);
        }
        while k > 0
            invariant
                k <= n,
                n == self.t@.len(),
                self.wf(),
                forall|j: int| k <= j < n ==> self.t@[j] != x,
                last_pos(self.t@, x) == last_pos(self.t@.take(k as int), x),
            decreases k,
        {
            proof {
                assert(self.t@.take(k as int).drop_last() =~= self.t@.take(k - 1));
                assert(self.t@.take(k as int).last() == self.t@[k - 1]);
            }
            if self.t[k - 1] == x {
                proof {
                    assert(self.t@.contains(x));
                    assert(self.history@[k - 1] == self.history@.take(n as int)[k - 1]);
                }
                return Some(k - 1);
            }
            k -= 1;
        }
        proof {
            assert(!self.t@.contains(x)) by {
                if self.t@.contains(x) {
                    let j = choose|j: int| 0 <= j < n && self.t@[j] == x;
                }
            }
        }
        let mut p: usize = n;
        while p < self.history.len()
            invariant
                n <= p <= self.history.len(),
                n == self.t@.len(),
                self.wf(),
                !self.t@.contains(x),
                forall|j: int| n <= j < p ==> self.history@[j] != x,
                first_pos_from(self.history@, x, n as int) == first_pos_from(self.history@, x, p as int),
            decreases self.history.len() - p,
        {
            if self.history[p] == x {
                return Some(p);
            }
            p += 1;
        }
        proof {
            assert(!self.history@.contains(x)) by {
                if self.history@.contains(x) {
                    let j = choose|j: int| 0 <= j < self.history@.len() && self.history@[j] == x;
                    if j < n {
                        assert(self.history@.take(n as int)[j] == x);
                        assert(self.t@.contains(x));
                    }
                }
            }
        }
        None
    }

    /// The values at positions `ti` of the history.
    fn args_of(&self, ti: &[usize]) -> (r: Vec<i64>)
        requires
            forall|k: int| 0 <= k < ti.len() ==> #[trigger] ti@[k] < self.history@.len(),
        ensures
            r@ == pick(self.history@, ti@),
    {
        let mut args: Vec<i64> = Vec::new();
        let mut k: usize = 0;
        while k < ti.len()
            invariant
                k <= ti.len(),
                forall|k2: int| 0 <= k2 < ti.len() ==> #[trigger] ti@[k2] < self.history@.len(),
                args@ == pick(self.history@, ti@.take(k as int)),
            decreases ti.len() - k,
        {
            args.push(self.history[ti[k]]);
            k += 1;
            proof {
                assert(args@ =~= pick(self.history@, ti@.take(k as int)));
            }
        }
        proof {
            assert(ti@.take(ti.len() as int) =~= ti@);
        }
        args
    }

    /// Applies `op` to the values at `ti`; returns the position naming the result, appending
    /// it when it is new.
    pub fn step(&mut self, op: &Operation, ti: &[usize]) -> (idx: usize)
        requires
            old(self).wf(),
            op.wf(),
            forall|k: int| 0 <= k < ti.len() ==> #[trigger] ti@[k] < old(self).history@.len(),
            op.spec_call(pick(old(self).history@, ti@)) is Some,
        ensures
            final(self).wf(),
            final(self).t == old(self).t,
            final(self).in_target == old(self).in_target,
            ({
                let x = op.spec_call(pick(old(self).history@, ti@)).unwrap();
                if old(self).history@.contains(x) {
                    &&& final(self).history@ == old(self).history@
                    &&& !final(self).has_generated
                    &&& idx == hist_index(old(self).t@, old(self).history@, x)
                } else {
                    &&& final(self).history@ == old(self).history@.push(x)
                    &&& final(self).has_generated
                    &&& idx == old(self).history@.len()
                }
            }),
            idx < final(self).history@.len(),
            final(self).history@[idx as int] == op.spec_call(pick(old(self).history@, ti@)).unwrap(),
    {
        let args = self.args_of(ti);
        let x = op.call(args.as_slice()).unwrap();
        match self.index_of_value(x) {
            Some(i) => {
                proof {
                    law_hist_index_names_value(*self, x);
                }
                self.has_generated = false;
                i
            },
            None => {
                let idx = self.history.len();
                let ghost before = self.history@;
                self.history.push(x);
                self.has_generated = true;
                proof {
                    assert(self.history@.take(self.t@.len() as int) =~= before.take(self.t@.len() as int));
                    assert(!self.t@.contains(x)) by {
                        if self.t@.contains(x) {
                            let j = choose|j: int| 0 <= j < self.t@.len() && self.t@[j] == x;
                            assert(before.take(self.t@.len() as int)[j] == x);
                            assert(before[j] == x);
                        }
                    }
                }
                idx
            },
        }
    }

    /// What `step` would return, without changing the history: the position and whether the value is new.
    pub fn simulate_step(&self, op: &Operation, ti: &[usize]) -> (r: (usize, bool))
        requires
            self.wf(),
            op.wf(),
            forall|k: int| 0 <= k < ti.len() ==> #[trigger] ti@[k] < self.history@.len(),
            op.spec_call(pick(self.history@, ti@)) is Some,
        ensures
            ({
                let x = op.spec_call(pick(self.history@, ti@)).unwrap();
                if self.history@.contains(x) {
                    r == (hist_index(self.t@, self.history@, x) as usize, false)
                } else {
                    r == (self.history@.len() as usize, true)
                }
            }),
    {
        let args = self.args_of(ti);
        let x = op.call(args.as_slice()).unwrap();
        match self.index_of_value(x) {
            Some(i) => (i, false),
            None => (self.history.len(), true),
        }
    }

    /// Two histories are equal when their tuples and histories are.
    pub fn same(&self, other: &TupleHistory) -> (r: bool)
        ensures
            r == (self.t@ == other.t@ && self.history@ == other.history@),
    {
        crate::util::tuple_eq(self.t.as_slice(), other.t.as_slice()) && crate::util::tuple_eq(
            self.history.as_slice(),
            other.history.as_slice(),
        )
    }
}

/// Key of the equalities among the positions of a history: its length, then one byte per
/// pair `i < j` (row by row) telling whether the two values are equal.
pub open spec fn equality_bits(h: Seq<i64>, i: int, j: int) -> Seq<u8>
    decreases h.len() - i, h.len() - j,
{
    if i < 0 || i >= h.len() {
        Seq::empty()
    } else if j >= h.len() || j <= i {
        equality_bits(h, i + 1, i + 2)
    } else {
        seq![if h[i] == h[j] { 1u8 } else { 0u8 }] + equality_bits(h, i, j + 1)
    }
}

/// The equality key of a history.
pub open spec fn isotype_key(h: Seq<i64>) -> Seq<u8> {
    u32_le(h.len() as u32) + equality_bits(h, 0, 1)
}

/// The equality key of a history.
pub fn isotype_equality_bytes(history: &[i64]) -> (key: Vec<u8>)
    ensures
        key@ == isotype_key(history@),
{
    let n = history.len();
    let mut key: Vec<u8> = Vec::new();
    push_u32_le(&mut key, n as u32);
    let ghost h = history@;
    let mut i: usize = 0;
    proof {
        assert(key@ + equality_bits(h, 0, 1) =~= isotype_key(h));
    }
    while i < n
        invariant
            i <= n,
            n == h.len(),
            h == history@,
            key@ + equality_bits(h, i as int, i + 1) == isotype_key(h),
        decreases n - i,
    {
        let mut j: usize = i + 1;
        while j < n
            invariant
                i < n,
                i < j <= n,
                n == h.len(),
                h == history@,
                key@ + equality_bits(h, i as int, j as int) == isotype_key(h),
            decreases n - j,
        {
            let ghost before = key@;
            if history[i] == history[j] {
                key.push(1u8);
            } else {
                key.push(0u8);
            }
            proof {
                assert(key@ + equality_bits(h, i as int, j + 1) =~= before + equality_bits(h, i as int, j as int));
            }
            j += 1;
        }
        proof {
            assert(equality_bits(h, i as int, n as int) == equality_bits(h, i + 1, i + 2));
        }
        i += 1;
    }
    proof {
        assert(equality_bits(h, n as int, n + 1) =~= Seq::<u8>::empty());
        assert(key@ =~= isotype_key(h));
    }
    key
}

proof fn lemma_last_pos_value(s: Seq<i64>, x: i64)
    requires
        s.contains(x),
    ensures
        0 <= last_pos(s, x) < s.len(),
        s[last_pos(s, x)] == x,
        forall|p: int| last_pos(s, x) < p < s.len() ==> s[p] != x,
    decreases s.len(),
{
    if s.last() != x {
        let w = choose|w: int| 0 <= w < s.len() && s[w] == x;
        assert(s.drop_last()[w] == x);
        lemma_last_pos_value(s.drop_last(), x);
        assert forall|p: int| last_pos(s, x) < p < s.len() implies s[p] != x by {
            if p < s.len() - 1 {
                assert(s.drop_last()[p] == s[p]);
            }
        }
    }
}

proof fn lemma_first_pos_value(s: Seq<i64>, x: i64, from: int, w: int)
    requires
        0 <= from <= w < s.len(),
        s[w] == x,
    ensures
        from <= first_pos_from(s, x, from) <= w,
        s[first_pos_from(s, x, from)] == x,
        forall|p: int| from <= p < first_pos_from(s, x, from) ==> s[p] != x,
    decreases w - from,
{
    if s[from] != x {
        lemma_first_pos_value(s, x, from + 1, w);
    }
}

/// Law: the position that names a value of a history holds that value. A value of the tuple
/// is named by its last position in the tuple, a generated value by its only position after
/// the tuple.
pub proof fn law_hist_index_names_value(th: TupleHistory, x: i64)
    requires
        th.wf(),
        th.history@.contains(x),
    ensures
        0 <= hist_index(th.t@, th.history@, x) < th.history@.len(),
        th.history@[hist_index(th.t@, th.history@, x)] == x,
        th.t@.contains(x) ==> hist_index(th.t@, th.history@, x) < th.t@.len() && forall|p: int|
            hist_index(th.t@, th.history@, x) < p < th.t@.len() ==> th.t@[p] != x,
        !th.t@.contains(x) ==> th.t@.len() <= hist_index(th.t@, th.history@, x),
{
    let t = th.t@;
    let h = th.history@;
    if t.contains(x) {
        lemma_last_pos_value(t, x);
        let i = last_pos(t, x);
        assert(h.take(t.len() as int)[i] == t[i]);
    } else {
        let w = choose|w: int| 0 <= w < h.len() && h[w] == x;
        if w < t.len() {
            assert(h.take(t.len() as int)[w] == x);
            assert(t[w] == x);
        }
        lemma_first_pos_value(h, x, t.len() as int, w);
    }
}


} // verus!
