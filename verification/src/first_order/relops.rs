//! Finite relations and partial operations over `i64` elements.

use vstd::prelude::*;

use crate::preprocessing::Pattern;
use crate::util::{all_in, copy_tuple, elem_in, lemma_tuple_deep_view, rows_contain, tuple_eq};

verus! {

/// A finite relation: a set of tuples of a fixed arity, stored without repetition.
pub struct Relation {
    pub sym: String,
    pub arity: usize,
    pub r: Vec<Vec<i64>>,
    pub pattern: Option<Box<Pattern>>,
    pub superrel_sym: Option<String>,
    /// The relation before equality-pattern preprocessing.
    pub superrel: Option<Box<Relation>>,
}

impl Relation {
    /// The stored tuples.
    pub open spec fn rows(&self) -> Seq<Seq<i64>> {
        self.r.deep_view()
    }

    /// `t` belongs to the relation.
    pub open spec fn has(&self, t: Seq<i64>) -> bool {
        self.rows().contains(t)
    }

    /// Every tuple has the declared arity and none is stored twice.
    pub open spec fn wf(&self) -> bool {
        &&& forall|i: int| 0 <= i < self.rows().len() ==> (#[trigger] self.rows()[i]).len() == self.arity
        &&& self.rows().no_duplicates()
    }

    /// Empty relation with the given symbol and arity.
    pub fn new(sym: &str, arity: usize) -> (res: Self)
        ensures
            res.sym@ == sym@,
            res.arity == arity,
            res.rows() == Seq::<Seq<i64>>::empty(),
            res.wf(),
            res.pattern.is_none(),
            res.superrel_sym.is_none(),
            res.superrel.is_none(),
    {
        let res = Relation {
            sym: sym.to_owned(),
            arity,
            r: Vec::new(),
            pattern: None,
            superrel_sym: None,
            superrel: None,
        };
        proof {
            assert(res.rows() =~= Seq::<Seq<i64>>::empty());
        }
        res
    }

    /// The relation extended by the given tuples; tuples of another arity are ignored.
    pub fn with_tuples(self, tuples: Vec<Vec<i64>>) -> (res: Self)
        requires
            self.wf(),
        ensures
            res.wf(),
            res.sym == self.sym,
            res.arity == self.arity,
            forall|s: Seq<i64>|
                #[trigger] res.has(s) <==> (self.has(s) || (s.len() == self.arity && tuples.deep_view().contains(s))),
    {
        let mut res = self;
        let mut i: usize = 0;
        while i < tuples.len()
            invariant
                i <= tuples.len(),
                res.wf(),
                res.sym == self.sym,
                res.arity == self.arity,
                forall|s: Seq<i64>|
                    #[trigger] res.has(s) <==> (self.has(s) || (s.len() == self.arity
                        && tuples.deep_view().take(i as int).contains(s))),
            decreases tuples.len() - i,
        {
            let t = copy_tuple(tuples[i].as_slice());
            let ghost before = res;
            res.add(t);
            proof {
                lemma_tuple_deep_view(tuples@[i as int]);
                assert forall|s: Seq<i64>|
                    #[trigger] res.has(s) <==> (self.has(s) || (s.len() == self.arity
                        && tuples.deep_view().take(i + 1).contains(s))) by {
                    let tk = tuples.deep_view().take(i as int);
                    let tk1 = tuples.deep_view().take(i + 1);
                    assert(tk1 =~= tk.push(t@));
                    if tk1.contains(s) && s != t@ {
                        let w = choose|w: int| 0 <= w < tk1.len() && tk1[w] == s;
                        assert(tk[w] == s);
                    }
                    if tk.contains(s) {
                        let w = choose|w: int| 0 <= w < tk.len() && tk[w] == s;
                        assert(tk1[w] == s);
                    }
                    if s == t@ {
                        assert(tk1[i as int] == s);
                    }
                }
            }
            i += 1;
        }
        proof {
            assert(tuples.deep_view().take(tuples.len() as int) =~= tuples.deep_view());
        }
        res
    }

    /// Adds `t` when its length is the arity (set insertion).
    pub fn add(&mut self, t: Vec<i64>)
        requires
            old(self).wf(),
        ensures
            final(self).wf(),
            final(self).sym == old(self).sym,
            final(self).arity == old(self).arity,
            final(self).pattern == old(self).pattern,
            final(self).superrel_sym == old(self).superrel_sym,
            final(self).superrel == old(self).superrel,
            forall|s: Seq<i64>|
                #[trigger] final(self).has(s) <==> (old(self).has(s) || (s == t@ && t.len() == old(self).arity)),
    {
        if t.len() == self.arity && !rows_contain(&self.r, t.as_slice()) {
            let ghost before = self.rows();
            self.r.push(t);
            proof {
                lemma_tuple_deep_view(t);
                assert(self.rows() =~= before.push(t@));
                assert forall|s: Seq<i64>|
                    #[trigger] self.has(s) <==> (old(self).has(s) || (s == t@ && t.len() == old(self).arity)) by {
                    if self.has(s) && s != t@ {
                        let w = choose|w: int| 0 <= w < self.rows().len() && self.rows()[w] == s;
                        assert(before[w] == s);
                    }
                    if old(self).has(s) {
                        let w = choose|w: int| 0 <= w < before.len() && before[w] == s;
                        assert(self.rows()[w] == s);
                    }
                    if s == t@ {
                        assert(self.rows()[before.len() as int] == s);
                    }
                }
                assert forall|i: int, j: int|
                    0 <= i < self.rows().len() && 0 <= j < self.rows().len() && i != j implies self.rows()[i]
                        != self.rows()[j] by {
                    if i < before.len() && j < before.len() {
                        assert(before[i] != before[j]);
                    } else if i < before.len() {
                        assert(before[i] != t@);
                    } else if j < before.len() {
                        assert(before[j] != t@);
                    }
                }
            }
        }
    }

    /// Membership test.
    pub fn contains(&self, args: &[i64]) -> (b: bool)
        ensures
            b == self.has(args@),
    {
        rows_contain(&self.r, args)
    }

    /// The tuples whose coordinates all lie in `subuniverse`.
    pub fn restrict(&self, subuniverse: &[i64]) -> (res: Self)
        requires
            self.wf(),
        ensures
            res.wf(),
            res.sym@ == self.sym@,
            res.arity == self.arity,
            forall|s: Seq<i64>| #[trigger] res.has(s) <==> (self.has(s) && all_in(s, subuniverse@)),
    {
        let mut result = Relation::new(self.sym.as_str(), self.arity);
        let mut i: usize = 0;
        while i < self.r.len()
            invariant
                i <= self.r.len(),
                self.wf(),
                result.wf(),
                result.sym@ == self.sym@,
                result.arity == self.arity,
                forall|s: Seq<i64>|
                    #[trigger] result.has(s) <==> (self.rows().take(i as int).contains(s) && all_in(s, subuniverse@)),
            decreases self.r.len() - i,
        {
            let t = &self.r[i];
            let mut ok = true;
            let mut j: usize = 0;
            while j < t.len()
                invariant
                    j <= t.len(),
                    ok == all_in(t@.take(j as int), subuniverse@),
                decreases t.len() - j,
            {
                if !elem_in(subuniverse, t[j]) {
                    ok = false;
                }
                proof {
                    assert forall|k: int| 0 <= k < j + 1 implies #[trigger] t@.take(j + 1)[k] == t@[k] by {}
                    assert(all_in(t@.take(j as int), subuniverse@) && subuniverse@.contains(t@[j as int])
                        <==> all_in(t@.take(j + 1), subuniverse@)) by {
                        if all_in(t@.take(j + 1), subuniverse@) {
                            assert(t@.take(j + 1)[j as int] == t@[j as int]);
                            assert forall|k: int| 0 <= k < j implies subuniverse@.contains(#[trigger] t@.take(j as int)[k]) by {
                                assert(t@.take(j + 1)[k] == t@.take(j as int)[k]);
                            }
                        }
                        if all_in(t@.take(j as int), subuniverse@) && subuniverse@.contains(t@[j as int]) {
                            assert forall|k: int| 0 <= k < j + 1 implies subuniverse@.contains(#[trigger] t@.take(j + 1)[k]) by {
                                if k < j {
                                    assert(t@.take(j + 1)[k] == t@.take(j as int)[k]);
                                }
                            }
                        }
                    }
                }
                j += 1;
            }
            proof {
                assert(t@.take(t.len() as int) =~= t@);
                lemma_tuple_deep_view(*t);
            }
            let ghost before = result;
            if ok {
                let c = copy_tuple(t.as_slice());
                result.add(c);
            }
            proof {
                let tk = self.rows().take(i as int);
                let tk1 = self.rows().take(i + 1);
                assert(tk1 =~= tk.push(t@));
                assert forall|s: Seq<i64>|
                    #[trigger] result.has(s) <==> (tk1.contains(s) && all_in(s, subuniverse@)) by {
                    if tk1.contains(s) && s != t@ {
                        let w = choose|w: int| 0 <= w < tk1.len() && tk1[w] == s;
                        assert(tk[w] == s);
                    }
                    if tk.contains(s) {
                        let w = choose|w: int| 0 <= w < tk.len() && tk[w] == s;
                        assert(tk1[w] == s);
                    }
                    if s == t@ {
                        assert(tk1[i as int] == s);
                        assert(s.len() == self.arity);
                    }
                }
            }
            i += 1;
        }
        proof {
            assert(self.rows().take(self.r.len() as int) =~= self.rows());
        }
        result
    }
}

/// Two relations agree in every field, down through the relations they were split from.
pub open spec fn same_relation(a: Relation, b: Relation) -> bool
    decreases a,
{
    &&& a.sym@ == b.sym@
    &&& a.arity == b.arity
    &&& a.rows() == b.rows()
    &&& a.pattern.is_some() == b.pattern.is_some()
    &&& (a.pattern.is_some() ==> a.pattern.unwrap().tuple@ == b.pattern.unwrap().tuple@
        && a.pattern.unwrap().pruned_tuple@ == b.pattern.unwrap().pruned_tuple@
        && a.pattern.unwrap().pattern.deep_view() == b.pattern.unwrap().pattern.deep_view())
    &&& a.superrel_sym.is_some() == b.superrel_sym.is_some()
    &&& (a.superrel_sym.is_some() ==> a.superrel_sym.unwrap()@ == b.superrel_sym.unwrap()@)
    &&& a.superrel.is_some() == b.superrel.is_some()
    &&& (a.superrel.is_some() ==> same_relation(*a.superrel.unwrap(), *b.superrel.unwrap()))
}

impl Relation {
    /// A deep copy of the relation.
    pub fn copy(&self) -> (r: Self)
        ensures
            same_relation(r, *self),
            self.wf() ==> r.wf(),
        decreases self,
    {
        let mut rows: Vec<Vec<i64>> = Vec::new();
        let mut i: usize = 0;
        while i < self.r.len()
            invariant
                i <= self.r.len(),
                rows.deep_view() == self.rows().take(i as int),
            decreases self.r.len() - i,
        {
            let t = copy_tuple(self.r[i].as_slice());
            let ghost before = rows.deep_view();
            rows.push(t);
            proof {
                lemma_tuple_deep_view(t);
                assert(rows.deep_view() =~= before.push(t@));
                assert(self.rows()[i as int] == self.r@[i as int]@);
                assert(self.rows().take(i + 1) =~= self.rows().take(i as int).push(t@));
            }
            i += 1;
        }
        proof {
            assert(self.rows().take(self.r.len() as int) =~= self.rows());
        }
        let pattern = match &self.pattern {
            Some(p) => Some(Box::new(p.copy())),
            None => None,
        };
        let superrel_sym = match &self.superrel_sym {
            Some(s) => Some(s.clone()),
            None => None,
        };
        let superrel = match &self.superrel {
            Some(b) => Some(Box::new(b.copy())),
            None => None,
        };
        Relation { sym: self.sym.clone(), arity: self.arity, r: rows, pattern, superrel_sym, superrel }
    }
}

/// Look-up in a table of `(arguments, value)` entries; the last matching entry wins.
pub open spec fn table_lookup(entries: Seq<(Vec<i64>, i64)>, k: Seq<i64>) -> Option<i64>
    decreases entries.len(),
{
    if entries.len() == 0 {
        None
    } else if entries.last().0@ == k {
        Some(entries.last().1)
    } else {
        table_lookup(entries.drop_last(), k)
    }
}

/// With pairwise distinct keys, the look-up finds the unique entry with that key.
pub proof fn lemma_table_lookup_index(entries: Seq<(Vec<i64>, i64)>, k: Seq<i64>)
    requires
        forall|i: int, j: int|
            0 <= i < entries.len() && 0 <= j < entries.len() && i != j ==> (#[trigger] entries[i]).0@
                != (#[trigger] entries[j]).0@,
    ensures
        forall|i: int| 0 <= i < entries.len() && (#[trigger] entries[i]).0@ == k ==> table_lookup(entries, k) == Some(entries[i].1),
        (forall|i: int| 0 <= i < entries.len() ==> (#[trigger] entries[i]).0@ != k) ==> table_lookup(entries, k) is None,
    decreases entries.len(),
{
    if entries.len() > 0 {
        let d = entries.drop_last();
        assert forall|i: int, j: int|
            0 <= i < d.len() && 0 <= j < d.len() && i != j implies (#[trigger] d[i]).0@ != (#[trigger] d[j]).0@ by {
            assert(d[i] == entries[i]);
            assert(d[j] == entries[j]);
        }
        lemma_table_lookup_index(d, k);
        assert forall|i: int| 0 <= i < entries.len() && (#[trigger] entries[i]).0@ == k implies table_lookup(entries, k)
            == Some(entries[i].1) by {
            if i < entries.len() - 1 {
                assert(d[i] == entries[i]);
                assert(entries.last() == entries[entries.len() - 1]);
            }
        }
        if forall|i: int| 0 <= i < entries.len() ==> (#[trigger] entries[i]).0@ != k {
            assert forall|i: int| 0 <= i < d.len() implies (#[trigger] d[i]).0@ != k by {
                assert(d[i] == entries[i]);
            }
            assert(entries.last() == entries[entries.len() - 1]);
        }
    }
}

/// A finite partial operation given by its table.
pub struct Operation {
    pub sym: String,
    pub arity: usize,
    pub op: Vec<(Vec<i64>, i64)>,
}

impl Operation {
    /// Value of the operation on `k`, if defined.
    pub open spec fn lookup(&self, k: Seq<i64>) -> Option<i64> {
        table_lookup(self.op@, k)
    }

    /// Result of applying the operation to `args`.
    pub open spec fn spec_call(&self, args: Seq<i64>) -> Option<i64> {
        if args.len() == self.arity {
            self.lookup(args)
        } else {
            None
        }
    }

    /// Keys have the arity and are pairwise distinct.
    pub open spec fn wf(&self) -> bool {
        &&& forall|i: int| 0 <= i < self.op@.len() ==> (#[trigger] self.op@[i]).0@.len() == self.arity
        &&& forall|i: int, j: int|
            0 <= i < self.op@.len() && 0 <= j < self.op@.len() && i != j ==> (#[trigger] self.op@[i]).0@
                != (#[trigger] self.op@[j]).0@
    }

    /// Operation with an empty table.
    pub fn new(sym: &str, arity: usize) -> (res: Self)
        ensures
            res.sym@ == sym@,
            res.arity == arity,
            res.wf(),
            forall|k: Seq<i64>| #[trigger] res.lookup(k) is None,
    {
        Operation { sym: sym.to_owned(), arity, op: Vec::new() }
    }

    /// Adds the table row `t = args ++ [value]` (extra coordinates are ignored);
    /// a row with fewer than `arity + 1` coordinates is ignored.
    pub fn add(&mut self, t: Vec<i64>)
        requires
            old(self).wf(),
        ensures
            final(self).wf(),
            final(self).sym == old(self).sym,
            final(self).arity == old(self).arity,
            forall|k: Seq<i64>|
                #[trigger] final(self).lookup(k) == if t.len() >= old(self).arity + 1 && k
                    == t@.take(old(self).arity as int) {
                    Some(t@[old(self).arity as int])
                } else {
                    old(self).lookup(k)
                },
    {
        if t.len() > self.arity {
            let mut args: Vec<i64> = Vec::new();
            let mut i: usize = 0;
            while i < self.arity
                invariant
                    i <= self.arity,
                    self.arity + 1 <= t.len(),
                    args@ == t@.take(i as int),
                decreases self.arity - i,
            {
                args.push(t[i]);
                i += 1;
                proof {
                    assert(args@ =~= t@.take(i as int));
                }
            }
            let result = t[self.arity];
            let found = self.find_key(args.as_slice());
            let ghost before = self.op@;
            proof {
                lemma_table_lookup_index(before, args@);
            }
            if let Some(pos) = found {
                let entry = (args, result);
                self.op.set(pos, entry);
                proof {
                    assert forall|i: int, j: int|
                        0 <= i < self.op@.len() && 0 <= j < self.op@.len() && i != j implies (#[trigger] self.op@[i]).0@
                            != (#[trigger] self.op@[j]).0@ by {
                        if i != pos && j != pos {
                            assert(self.op@[i] == before[i]);
                            assert(self.op@[j] == before[j]);
                        } else if i == pos {
                            assert(self.op@[j] == before[j]);
                            assert(before[pos as int].0@ == args@);
                        } else {
                            assert(self.op@[i] == before[i]);
                            assert(before[pos as int].0@ == args@);
                        }
                    }
                    lemma_table_lookup_index(self.op@, args@);
                    assert forall|k: Seq<i64>| #[trigger] self.lookup(k) == if k == args@ {
                        Some(result)
                    } else {
                        old(self).lookup(k)
                    } by {
                        lemma_table_lookup_index(self.op@, k);
                        lemma_table_lookup_index(before, k);
                        if k != args@ {
                            if exists|i: int| 0 <= i < before.len() && before[i].0@ == k {
                                let i = choose|i: int| 0 <= i < before.len() && before[i].0@ == k;
                                assert(self.op@[i] == before[i]);
                            } else {
                                assert forall|i: int| 0 <= i < self.op@.len() implies (#[trigger] self.op@[i]).0@ != k by {
                                    if i != pos {
                                        assert(self.op@[i] == before[i]);
                                    }
                                }
                            }
                        } else {
                            assert(self.op@[pos as int].0@ == args@);
                        }
                    }
                }
            } else {
                let entry = (args, result);
                self.op.push(entry);
                proof {
                    assert forall|i: int, j: int|
                        0 <= i < self.op@.len() && 0 <= j < self.op@.len() && i != j implies (#[trigger] self.op@[i]).0@
                            != (#[trigger] self.op@[j]).0@ by {
                        if i < before.len() && j < before.len() {
                            assert(self.op@[i] == before[i]);
                            assert(self.op@[j] == before[j]);
                        } else if i < before.len() {
                            assert(self.op@[i] == before[i]);
                            assert(self.op@[j].0@ == args@);
                        } else {
                            assert(self.op@[j] == before[j]);
                            assert(self.op@[i].0@ == args@);
                        }
                    }
                    assert(self.op@.drop_last() =~= before);
                    assert(self.op@.last().0@ == args@);
                }
            }
        }
    }

    /// Position of the table entry with key `args`.
    pub fn find_key(&self, args: &[i64]) -> (r: Option<usize>)
        ensures
            match r {
                Some(i) => i < self.op.len() && self.op@[i as int].0@ == args@,
                None => forall|j: int| 0 <= j < self.op.len() ==> (#[trigger] self.op@[j]).0@ != args@,
            },
    {
        let mut i: usize = 0;
        while i < self.op.len()
            invariant
                i <= self.op.len(),
                forall|j: int| 0 <= j < i ==> (#[trigger] self.op@[j]).0@ != args@,
            decreases self.op.len() - i,
        {
            if tuple_eq(self.op[i].0.as_slice(), args) {
                return Some(i);
            }
            i += 1;
        }
        None
    }

    /// Applies the operation; `None` when the arity is wrong or the value is undefined.
    pub fn call(&self, args: &[i64]) -> (r: Option<i64>)
        requires
            self.wf(),
        ensures
            r == self.spec_call(args@),
    {
        if args.len() != self.arity {
            return None;
        }
        proof {
            lemma_table_lookup_index(self.op@, args@);
        }
        let mut i: usize = 0;
        while i < self.op.len()
            invariant
                self.wf(),
                i <= self.op.len(),
                forall|j: int| 0 <= j < i ==> (#[trigger] self.op@[j]).0@ != args@,
            decreases self.op.len() - i,
        {
            if tuple_eq(self.op[i].0.as_slice(), args) {
                proof {
                    lemma_table_lookup_index(self.op@, args@);
                    assert(self.op@[i as int].0@ == args@);
                    assert(table_lookup(self.op@, args@) == Some(self.op@[i as int].1));
                }
                return Some(self.op[i].1);
            }
            i += 1;
        }
        proof {
            lemma_table_lookup_index(self.op@, args@);
            assert(forall|j: int| 0 <= j < self.op@.len() ==> (#[trigger] self.op@[j]).0@ != args@);
        }
        None
    }

    /// The operation restricted to arguments and values in `subuniverse`.
    pub fn restrict(&self, subuniverse: &[i64]) -> (res: Self)
        requires
            self.wf(),
        ensures
            res.wf(),
            res.sym@ == self.sym@,
            res.arity == self.arity,
            forall|k: Seq<i64>|
                #[trigger] res.lookup(k) == match self.lookup(k) {
                    Some(v) => if all_in(k, subuniverse@) && subuniverse@.contains(v) {
                        Some(v)
                    } else {
                        None
                    },
                    None => None,
                },
    {
        let mut result = Operation::new(self.sym.as_str(), self.arity);
        let mut i: usize = 0;
        proof {
            lemma_table_lookup_index(self.op@, Seq::empty());
        }
        while i < self.op.len()
            invariant
                i <= self.op.len(),
                self.wf(),
                result.wf(),
                result.sym@ == self.sym@,
                result.arity == self.arity,
                forall|k: Seq<i64>|
                    #[trigger] result.lookup(k) == match table_lookup(self.op@.take(i as int), k) {
                        Some(v) => if all_in(k, subuniverse@) && subuniverse@.contains(v) {
                            Some(v)
                        } else {
                            None
                        },
                        None => None,
                    },
            decreases self.op.len() - i,
        {
            let t = &self.op[i].0;
            let v = self.op[i].1;
            let mut ok = elem_in(subuniverse, v);
            let mut j: usize = 0;
            while j < t.len()
                invariant
                    j <= t.len(),
                    ok == (all_in(t@.take(j as int), subuniverse@) && subuniverse@.contains(v)),
                decreases t.len() - j,
            {
                if !elem_in(subuniverse, t[j]) {
                    ok = false;
                }
                proof {
                    if all_in(t@.take(j + 1), subuniverse@) {
                        assert(t@.take(j + 1)[j as int] == t@[j as int]);
                        assert forall|k: int| 0 <= k < j implies subuniverse@.contains(#[trigger] t@.take(j as int)[k]) by {
                            assert(t@.take(j + 1)[k] == t@.take(j as int)[k]);
                        }
                    }
                    if all_in(t@.take(j as int), subuniverse@) && subuniverse@.contains(t@[j as int]) {
                        assert forall|k: int| 0 <= k < j + 1 implies subuniverse@.contains(#[trigger] t@.take(j + 1)[k]) by {
                            if k < j {
                                assert(t@.take(j + 1)[k] == t@.take(j as int)[k]);
                            }
                        }
                    }
                }
                j += 1;
            }
            proof {
                assert(t@.take(t.len() as int) =~= t@);
            }
            let ghost before = result;
            if ok {
                let mut row = copy_tuple(t.as_slice());
                row.push(v);
                result.add(row);
                proof {
                    assert(row@.take(self.arity as int) =~= t@);
                }
            }
            proof {
                let tk = self.op@.take(i as int);
                let tk1 = self.op@.take(i + 1);
                assert(tk1.drop_last() =~= tk);
                assert(tk1.last() == self.op@[i as int]);
                assert forall|k: Seq<i64>|
                    #[trigger] result.lookup(k) == match table_lookup(tk1, k) {
                        Some(v) => if all_in(k, subuniverse@) && subuniverse@.contains(v) {
                            Some(v)
                        } else {
                            None
                        },
                        None => None,
                    } by {
                    if k == t@ {
                        // keys are distinct, so the earlier prefix has no entry for `k`
                        assert forall|w: int| 0 <= w < tk.len() implies (#[trigger] tk[w]).0@ != k by {
                            assert(tk[w] == self.op@[w]);
                        }
                        assert forall|a: int, b: int|
                            0 <= a < tk.len() && 0 <= b < tk.len() && a != b implies (#[trigger] tk[a]).0@
                                != (#[trigger] tk[b]).0@ by {
                            assert(tk[a] == self.op@[a]);
                            assert(tk[b] == self.op@[b]);
                        }
                        lemma_table_lookup_index(tk, k);
                    }
                }
            }
            i += 1;
        }
        proof {
            assert(self.op@.take(self.op.len() as int) =~= self.op@);
        }
        result
    }
}

/// Index of the first operation named `name`.
pub fn find_operation(ops: &Vec<Operation>, name: &String) -> (r: Option<usize>)
    ensures
        match r {
            Some(i) => i < ops.len() && ops@[i as int].sym@ == name@ && forall|j: int|
                0 <= j < i ==> (#[trigger] ops@[j]).sym@ != name@,
            None => forall|j: int| 0 <= j < ops.len() ==> (#[trigger] ops@[j]).sym@ != name@,
        },
{
    let mut i: usize = 0;
    while i < ops.len()
        invariant
            i <= ops.len(),
            forall|j: int| 0 <= j < i ==> (#[trigger] ops@[j]).sym@ != name@,
        decreases ops.len() - i,
    {
        if ops[i].sym == *name {
            return Some(i);
        }
        i += 1;
    }
    None
}

} // verus!
