//! Equality patterns of tuples and the splitting of a target relation by pattern.

use vstd::prelude::*;

use crate::first_order::formulas::{
    self, and_spec, complementary, formula_vars, FormulaV, lemma_and_spec_vars, lemma_var_name_injective, lemma_dec_digits_injective, lemma_dec_digits_len, term_vars, env_lookup, eq_spec, formula_view, law_and_formula_is_conjunction, lemma_neg_sat, neg_spec, sat,
    term_view, var_name, Formula, Term, TermV, Variable,
};
use crate::first_order::relops::{same_relation, Operation, Relation};
use crate::strs::{ascii_digit, dec_digits, int_text, push_char, push_str, push_usize};
use crate::util::{copy_tuple, lemma_tuple_deep_view};

verus! {

/// The distinct values of `t` in order of first occurrence.
pub open spec fn pruned(t: Seq<i64>) -> Seq<i64>
    decreases t.len(),
{
    if t.len() == 0 {
        Seq::empty()
    } else {
        let p = pruned(t.drop_last());
        if p.contains(t.last()) {
            p
        } else {
            p.push(t.last())
        }
    }
}

/// The positions of `t` that hold `x`, in increasing order.
pub open spec fn class_of(t: Seq<i64>, x: i64) -> Seq<usize>
    decreases t.len(),
{
    if t.len() == 0 {
        Seq::empty()
    } else {
        let c = class_of(t.drop_last(), x);
        if t.last() == x {
            c.push((t.len() - 1) as usize)
        } else {
            c
        }
    }
}

/// The equality classes of positions of `t`, ordered by their least position.
pub open spec fn classes(t: Seq<i64>) -> Seq<Seq<usize>> {
    pruned(t).map_values(|x: i64| class_of(t, x))
}

/// Text `i,j,k` of a class.
pub open spec fn class_text(c: Seq<usize>) -> Seq<char>
    decreases c.len(),
{
    if c.len() == 0 {
        Seq::empty()
    } else if c.len() == 1 {
        int_text(c[0] as int)
    } else {
        class_text(c.drop_last()) + seq![','] + int_text(c.last() as int)
    }
}

/// Texts of the classes, each followed by `|`.
pub open spec fn classes_text(cs: Seq<Seq<usize>>) -> Seq<char>
    decreases cs.len(),
{
    if cs.len() == 0 {
        Seq::empty()
    } else {
        classes_text(cs.drop_last()) + class_text(cs.last()) + seq!['|']
    }
}

/// Name of the pattern of `t`, such as `|0|1,2|a2`.
pub open spec fn pattern_name(t: Seq<i64>) -> Seq<char> {
    seq!['|'] + classes_text(classes(t)) + seq!['a'] + int_text(pruned(t).len() as int)
}

/// Equality pattern of a tuple: its classes of equal positions and its distinct values.
pub struct Pattern {
    pub tuple: Vec<i64>,
    pub pruned_tuple: Vec<i64>,
    pub pattern: Vec<Vec<usize>>,
}

impl Pattern {
    /// The fields describe the tuple's pattern.
    pub open spec fn wf(&self) -> bool {
        &&& self.pruned_tuple@ == pruned(self.tuple@)
        &&& self.pattern.deep_view() == classes(self.tuple@)
    }

    /// The pattern of `tuple`.
    pub fn new(tuple: Vec<i64>) -> (p: Self)
        ensures
            p.wf(),
            p.tuple@ == tuple@,
    {
        let mut pr: Vec<i64> = Vec::new();
        let mut cls: Vec<Vec<usize>> = Vec::new();
        let mut i: usize = 0;
        proof {
            assert(tuple@.take(0) =~= Seq::<i64>::empty());
            assert(cls.deep_view() =~= classes(tuple@.take(0)));
        }
        while i < tuple.len()
            invariant
                i <= tuple.len(),
                pr@ == pruned(tuple@.take(i as int)),
                cls.len() == pr.len(),
                cls.deep_view() == classes(tuple@.take(i as int)),
            decreases tuple.len() - i,
        {
            let x = tuple[i];
            let ghost t0 = tuple@.take(i as int);
            let ghost t1 = tuple@.take(i + 1);
            proof {
                assert(t1.drop_last() =~= t0);
                assert(t1.last() == x);
                lemma_class_of_step(t1, x);
            }
            let mut p: usize = 0;
            while p < pr.len() && pr[p] != x
                invariant
                    p <= pr.len(),
                    forall|k: int| 0 <= k < p ==> pr@[k] != x,
                decreases pr.len() - p,
            {
                p += 1;
            }
            let ghost old_cls = cls.deep_view();
            if p < pr.len() {
                proof {
                    assert(old_cls[p as int] == cls@[p as int]@);
                    lemma_pruned_distinct(t0);
                }
                let mut c = copy_idx(&cls[p]);
                c.push(i);
                let ghost cv = c@;
                cls.set(p, c);
                proof {
                    assert(pr@.contains(x));
                    assert(pruned(t1) == pruned(t0));
                    assert forall|k: int| 0 <= k < pr.len() implies #[trigger] cls.deep_view()[k] == class_of(t1, pr@[k]) by {
                        lemma_class_of_step(t1, pr@[k]);
                        if k == p {
                            assert(cls.deep_view()[k] == cv);
                            assert(old_cls[k] == class_of(t0, x));
                            assert(cv == class_of(t0, x).push(i));
                        } else {
                            assert(pr@[k] != x);
                            assert(cls.deep_view()[k] == old_cls[k]);
                            assert(old_cls[k] == class_of(t0, pr@[k]));
                        }
                    }
                    assert(cls.deep_view() =~= classes(t1));
                }
            } else {
                pr.push(x);
                let mut c: Vec<usize> = Vec::new();
                c.push(i);
                cls.push(c);
                proof {
                    assert(!pruned(t0).contains(x));
                    lemma_class_of_absent(t0, x);
                    assert(c@ =~= class_of(t0, x).push(i));
                    assert forall|k: int| 0 <= k < pr.len() implies #[trigger] cls.deep_view()[k] == class_of(t1, pr@[k]) by {
                        lemma_class_of_step(t1, pr@[k]);
                        if k < old_cls.len() {
                            assert(cls.deep_view()[k] == old_cls[k]);
                            assert(old_cls[k] == class_of(t0, pr@[k]));
                        } else {
                            assert(cls.deep_view()[k] == c@);
                        }
                    }
                    assert(cls.deep_view() =~= classes(t1));
                }
            }
            i += 1;
        }
        proof {
            assert(tuple@.take(tuple.len() as int) =~= tuple@);
        }
        Pattern { tuple, pruned_tuple: pr, pattern: cls }
    }

    /// The two tuples have the same pattern.
    pub fn same_pattern(&self, other: &Pattern) -> (r: bool)
        ensures
            r == (self.pattern.deep_view() == other.pattern.deep_view()),
    {
        if self.pattern.len() != other.pattern.len() {
            proof {
                assert(self.pattern.deep_view().len() != other.pattern.deep_view().len());
            }
            return false;
        }
        let mut i: usize = 0;
        while i < self.pattern.len()
            invariant
                i <= self.pattern.len(),
                self.pattern.len() == other.pattern.len(),
                forall|k: int| 0 <= k < i ==> self.pattern.deep_view()[k] == other.pattern.deep_view()[k],
            decreases self.pattern.len() - i,
        {
            let a = &self.pattern[i];
            let b = &other.pattern[i];
            let mut same = a.len() == b.len();
            let mut j: usize = 0;
            while same && j < a.len()
                invariant
                    j <= a.len(),
                    same ==> a.len() == b.len(),
                    same ==> forall|k: int| 0 <= k < j ==> a@[k] == b@[k],
                    !same ==> a@ != b@,
                decreases a.len() - j,
            {
                if a[j] != b[j] {
                    same = false;
                }
                j += 1;
            }
            proof {
                assert(self.pattern.deep_view()[i as int] =~= a@);
                assert(other.pattern.deep_view()[i as int] =~= b@);
                if same {
                    assert(a@ =~= b@);
                }
            }
            if !same {
                return false;
            }
            i += 1;
        }
        proof {
            assert(self.pattern.deep_view() =~= other.pattern.deep_view());
        }
        true
    }

    /// The pattern's name, such as `|0|1,2|a2`.
    pub fn name(&self) -> (r: String)
        requires
            self.wf(),
        ensures
            r@ == pattern_name(self.tuple@),
    {
        let mut s = String::new();
        push_char(&mut s, '|');
        let mut i: usize = 0;
        proof {
            assert(self.pattern.deep_view().take(0) =~= Seq::<Seq<usize>>::empty());
        }
        while i < self.pattern.len()
            invariant
                i <= self.pattern.len(),
                s@ == seq!['|'] + classes_text(self.pattern.deep_view().take(i as int)),
            decreases self.pattern.len() - i,
        {
            let c = &self.pattern[i];
            let ghost before = s@;
            let mut j: usize = 0;
            while j < c.len()
                invariant
                    j <= c.len(),
                    s@ == before + class_text(c@.take(j as int)),
                decreases c.len() - j,
            {
                if j > 0 {
                    push_char(&mut s, ',');
                }
                push_usize(&mut s, c[j]);
                proof {
                    let cj = c@.take(j + 1);
                    assert(cj.drop_last() =~= c@.take(j as int));
                    assert(cj.last() == c@[j as int]);
                    if j == 0 {
                        assert(class_text(c@.take(0)) =~= Seq::<char>::empty());
                    }
                    assert(s@ =~= before + class_text(cj));
                }
                j += 1;
            }
            push_char(&mut s, '|');
            proof {
                assert(c@.take(c.len() as int) =~= c@);
                let pv = self.pattern.deep_view();
                assert(pv.take(i + 1).drop_last() =~= pv.take(i as int));
                assert(pv.take(i + 1).last() == pv[i as int]);
                assert(pv[i as int] =~= c@);
                assert(s@ =~= seq!['|'] + classes_text(pv.take(i + 1)));
            }
            i += 1;
        }
        push_char(&mut s, 'a');
        push_usize(&mut s, self.pruned_tuple.len());
        proof {
            assert(self.pattern.deep_view().take(self.pattern.len() as int) =~= self.pattern.deep_view());
            assert(s@ =~= pattern_name(self.tuple@));
        }
        s
    }

    /// A copy of the pattern.
    pub fn copy(&self) -> (r: Self)
        ensures
            r.tuple@ == self.tuple@,
            r.pruned_tuple@ == self.pruned_tuple@,
            r.pattern.deep_view() == self.pattern.deep_view(),
    {
        let mut cls: Vec<Vec<usize>> = Vec::new();
        let mut i: usize = 0;
        while i < self.pattern.len()
            invariant
                i <= self.pattern.len(),
                cls.deep_view() == self.pattern.deep_view().take(i as int),
            decreases self.pattern.len() - i,
        {
            let c = copy_idx(&self.pattern[i]);
            let ghost before = cls.deep_view();
            cls.push(c);
            proof {
                assert(self.pattern.deep_view()[i as int] == self.pattern@[i as int]@);
                assert(cls.deep_view() =~= before.push(c@));
                assert(self.pattern.deep_view().take(i + 1) =~= self.pattern.deep_view().take(i as int).push(c@));
            }
            i += 1;
        }
        proof {
            assert(self.pattern.deep_view().take(self.pattern.len() as int) =~= self.pattern.deep_view());
        }
        Pattern {
            tuple: copy_tuple(self.tuple.as_slice()),
            pruned_tuple: copy_tuple(self.pruned_tuple.as_slice()),
            pattern: cls,
        }
    }
}

/// Value that an assignment gives to the canonical variable `x_i` (`i64::MIN` when unbound).
pub open spec fn var_value(i: int, env: Seq<(Seq<char>, i64)>) -> i64 {
    match env_lookup(env, var_name(i)) {
        Some(v) => v,
        None => i64::MIN,
    }
}

/// The least position of each class of `t`, in increasing order.
pub open spec fn representatives(t: Seq<i64>) -> Seq<int> {
    classes(t).map_values(|c: Seq<usize>| c[0] as int)
}

/// The variables of distinct representatives take distinct values.
pub open spec fn reps_distinct(t: Seq<i64>, env: Seq<(Seq<char>, i64)>) -> bool {
    let r = representatives(t);
    forall|a: int, b: int|
        0 <= a < r.len() && 0 <= b < r.len() && a != b ==> var_value(#[trigger] r[a], env) != var_value(
            #[trigger] r[b],
            env,
        )
}

/// The variables of each class take one value.
pub open spec fn classes_equal(t: Seq<i64>, env: Seq<(Seq<char>, i64)>) -> bool {
    let cs = classes(t);
    forall|c: int, k: int|
        0 <= c < cs.len() && 0 <= k && k + 1 < cs[c].len() ==> var_value(#[trigger] cs[c][k] as int, env)
            == var_value(cs[c][k + 1] as int, env)
}

/// Pairs `(a, b)`, `a != b`, of representative positions already handled: rows before `i`,
/// and the first `j` entries of row `i`.
pub open spec fn pairs_distinct(r: Seq<int>, env: Seq<(Seq<char>, i64)>, i: int, j: int) -> bool {
    forall|a: int, b: int|
        0 <= a < r.len() && 0 <= b < r.len() && a != b && (a < i || (a == i && b < j)) ==> var_value(
            #[trigger] r[a],
            env,
        ) != var_value(#[trigger] r[b], env)
}

/// Facts on the classes of a tuple: each is a non-empty increasing list of positions of `t`,
/// and its least position is the representative.
pub proof fn lemma_classes_shape(t: Seq<i64>)
    requires
        t.len() <= usize::MAX,
    ensures
        classes(t).len() == pruned(t).len(),
        forall|c: int| 0 <= c < classes(t).len() ==> (#[trigger] classes(t)[c]).len() > 0,
        forall|c: int, k: int|
            0 <= c < classes(t).len() && 0 <= k < classes(t)[c].len() ==> (#[trigger] classes(t)[c][k]) < t.len(),
        forall|c: int, k: int|
            0 <= c < classes(t).len() && 0 <= k < classes(t)[c].len() ==> t[#[trigger] classes(t)[c][k] as int]
                == pruned(t)[c],
        forall|a: int, b: int|
            0 <= a < b < classes(t).len() ==> (#[trigger] classes(t)[a])[0] < (#[trigger] classes(t)[b])[0],
{
    lemma_pruned_distinct(t);
    assert forall|c: int| 0 <= c < classes(t).len() implies (#[trigger] classes(t)[c]).len() > 0 by {
        assert(pruned(t).contains(pruned(t)[c]));
        lemma_class_of_present(t, pruned(t)[c]);
    }
    assert forall|c: int, k: int|
        0 <= c < classes(t).len() && 0 <= k < classes(t)[c].len() implies (#[trigger] classes(t)[c][k]) < t.len()
            && t[classes(t)[c][k] as int] == pruned(t)[c] by {
        lemma_class_of_members(t, pruned(t)[c]);
    }
    assert forall|a: int, b: int|
        0 <= a < b < classes(t).len() implies (#[trigger] classes(t)[a])[0] < (#[trigger] classes(t)[b])[0] by {
        lemma_first_positions(t, a, b);
    }
}

/// The members of a class are the positions of `t` holding `x`, in increasing order.
pub proof fn lemma_class_of_members(t: Seq<i64>, x: i64)
    requires
        t.len() <= usize::MAX,
    ensures
        forall|k: int| 0 <= k < class_of(t, x).len() ==> (#[trigger] class_of(t, x)[k]) < t.len() && t[class_of(t, x)[k] as int] == x,
        forall|k: int, l: int| 0 <= k < l < class_of(t, x).len() ==> (#[trigger] class_of(t, x)[k]) < (#[trigger] class_of(t, x)[l]),
        forall|i: int| 0 <= i < t.len() && t[i] == x ==> #[trigger] class_of(t, x).contains(i as usize),
    decreases t.len(),
{
    if t.len() > 0 {
        let d = t.drop_last();
        lemma_class_of_members(d, x);
        let c = class_of(d, x);
        assert forall|k: int| 0 <= k < c.len() implies (#[trigger] c[k]) < t.len() - 1 && t[c[k] as int] == x by {
            assert(d[c[k] as int] == t[c[k] as int]);
        }
        assert forall|i: int| 0 <= i < t.len() && t[i] == x implies #[trigger] class_of(t, x).contains(i as usize) by {
            if i < t.len() - 1 {
                assert(d[i] == t[i]);
                assert(c.contains(i as usize));
                let w = choose|w: int| 0 <= w < c.len() && c[w] == i as usize;
                assert(class_of(t, x)[w] == i as usize);
            } else {
                assert(class_of(t, x)[c.len() as int] == i as usize);
            }
        }
    }
}

/// A value of the tuple has a non-empty class.
pub proof fn lemma_class_of_present(t: Seq<i64>, x: i64)
    requires
        t.contains(x),
        t.len() <= usize::MAX,
    ensures
        class_of(t, x).len() > 0,
{
    let i = choose|i: int| 0 <= i < t.len() && t[i] == x;
    lemma_class_of_members(t, x);
    assert(class_of(t, x).contains(i as usize));
}

/// The first positions of the distinct values increase with their order of appearance.
pub proof fn lemma_first_positions(t: Seq<i64>, a: int, b: int)
    requires
        0 <= a < b < pruned(t).len(),
        t.len() <= usize::MAX,
    ensures
        class_of(t, pruned(t)[a]).len() > 0,
        class_of(t, pruned(t)[b]).len() > 0,
        class_of(t, pruned(t)[a])[0] < class_of(t, pruned(t)[b])[0],
    decreases t.len(),
{
    lemma_pruned_distinct(t);
    let d = t.drop_last();
    let p = pruned(d);
    lemma_pruned_distinct(d);
    assert(pruned(t).contains(pruned(t)[a]));
    assert(pruned(t).contains(pruned(t)[b]));
    lemma_class_of_present(t, pruned(t)[a]);
    lemma_class_of_present(t, pruned(t)[b]);
    let xa = pruned(t)[a];
    let xb = pruned(t)[b];
    if b < p.len() {
        assert(pruned(t)[a] == p[a]);
        assert(pruned(t)[b] == p[b]);
        lemma_first_positions(d, a, b);
        lemma_class_of_step(t, xa);
        lemma_class_of_step(t, xb);
    } else {
        // `xb` first appears at the last position
        assert(!p.contains(t.last()));
        assert(xb == t.last());
        assert(pruned(t)[a] == p[a]);
        assert(p.contains(xa));
        lemma_class_of_absent(d, xb);
        lemma_class_of_step(t, xb);
        lemma_class_of_step(t, xa);
        assert(d.contains(xa));
        lemma_class_of_present(d, xa);
        lemma_class_of_members(d, xa);
        assert(class_of(d, xa)[0] < d.len());
    }
}

/// The canonical variable term `x_i`.
fn var_term(vs: &Vec<Variable>, i: usize) -> (t: Term)
    requires
        i < vs.len(),
    ensures
        term_view(t) == TermV::Var(vs@[i as int].sym@),
{
    Term::Variable(vs[i].copy())
}

/// The variables `x_0 .. x_{n-1}`.
fn canonical_vars(n: usize) -> (vs: Vec<Variable>)
    requires
        n <= i32::MAX,
    ensures
        vs.len() == n,
        forall|k: int| 0 <= k < n ==> (#[trigger] vs@[k]).sym@ == var_name(k),
{
    let mut idx: Vec<i32> = Vec::new();
    let mut i: usize = 0;
    while i < n
        invariant
            i <= n,
            n <= i32::MAX,
            idx.len() == i,
            forall|k: int| 0 <= k < i ==> idx@[k] == k,
        decreases n - i,
    {
        idx.push(i as i32);
        i += 1;
    }
    let vs = formulas::variables(idx.as_slice());
    proof {
        assert forall|k: int| 0 <= k < n implies (#[trigger] vs@[k]).sym@ == var_name(k) by {
            assert(idx@[k] == k);
        }
    }
    vs
}

/// Conjoining the negated equality of two variables adds their distinctness.
proof fn lemma_and_distinct(f: formulas::FormulaV, a: int, b: int, ops: Seq<Operation>, env: Seq<(Seq<char>, i64)>)
    ensures
        sat(and_spec(f, neg_spec(eq_spec(TermV::Var(var_name(a)), TermV::Var(var_name(b))))), ops, env) == (sat(
            f,
            ops,
            env,
        ) && var_value(a, env) != var_value(b, env)),
{
    let e = eq_spec(TermV::Var(var_name(a)), TermV::Var(var_name(b)));
    law_and_formula_is_conjunction(f, neg_spec(e), ops, env);
    lemma_neg_sat(e, ops, env);
}

/// Conjoining the equality of two variables adds their equality.
proof fn lemma_and_equal(f: formulas::FormulaV, a: int, b: int, ops: Seq<Operation>, env: Seq<(Seq<char>, i64)>)
    ensures
        sat(and_spec(f, eq_spec(TermV::Var(var_name(a)), TermV::Var(var_name(b)))), ops, env) == (sat(f, ops, env)
            && var_value(a, env) == var_value(b, env)),
{
    let e = eq_spec(TermV::Var(var_name(a)), TermV::Var(var_name(b)));
    law_and_formula_is_conjunction(f, e, ops, env);
}

/// Names of the variables of the representatives of the classes of `t`.
pub open spec fn rep_names(t: Seq<i64>) -> Set<Seq<char>> {
    Set::new(|n: Seq<char>| exists|x: int| 0 <= x < representatives(t).len() && n == var_name(#[trigger] representatives(t)[x]))
}

/// Names of the representatives that the pairs up to `(a, b)` have compared.
pub open spec fn compared_names(r: Seq<int>, a: int, b: int) -> Set<Seq<char>> {
    Set::new(|n: Seq<char>| exists|x: int| 0 <= x < r.len() && n == var_name(#[trigger] r[x]) && (a >= 1 || x == 0 || x < b))
}

/// A conjunction, or the negation of an equality atom.
pub open spec fn neg_conj_shape(f: FormulaV) -> bool {
    f is And || (f matches FormulaV::Neg(g) && *g is Eq)
}

/// One more pair `(a, b)` adds the names of both representatives.
proof fn lemma_compared_step(r: Seq<int>, a: int, b: int)
    requires
        0 <= a < r.len(),
        0 <= b < r.len(),
    ensures
        compared_names(r, a, b + 1) == compared_names(r, a, b).union(set![var_name(r[a]), var_name(r[b])]),
{
    let lhs = compared_names(r, a, b + 1);
    let rhs = compared_names(r, a, b).union(set![var_name(r[a]), var_name(r[b])]);
    assert forall|n: Seq<char>| lhs.contains(n) implies rhs.contains(n) by {
        let x = choose|x: int| 0 <= x < r.len() && n == var_name(#[trigger] r[x]) && (a >= 1 || x == 0 || x < b + 1);
        if !(a >= 1 || x == 0 || x < b) {
            assert(x == b);
        } else {
            assert(compared_names(r, a, b).contains(n));
        }
    }
    assert forall|n: Seq<char>| rhs.contains(n) implies lhs.contains(n) by {
        if compared_names(r, a, b).contains(n) {
            let x = choose|x: int| 0 <= x < r.len() && n == var_name(#[trigger] r[x]) && (a >= 1 || x == 0 || x < b);
            assert(lhs.contains(n));
        } else if n == var_name(r[a]) {
            assert(a >= 1 || a == 0);
            assert(n == var_name(r[a]) && (a >= 1 || a == 0 || a < b + 1));
        } else {
            assert(n == var_name(r[b]) && (a >= 1 || b == 0 || b < b + 1));
        }
    }
    assert(lhs =~= rhs);
}

/// After a whole row the names compared are those of every representative.
proof fn lemma_compared_row_end(r: Seq<int>, a: int)
    requires
        0 <= a,
    ensures
        compared_names(r, a, r.len() as int) == compared_names(r, a + 1, 0),
{
    assert(compared_names(r, a, r.len() as int) =~= compared_names(r, a + 1, 0));
}

impl Pattern {
    /// The formula that the pruned tuples satisfy: the variables of distinct representatives differ.
    pub fn preprocessed_formula(&self) -> (f: Formula)
        requires
            self.wf(),
            self.tuple.len() <= i32::MAX,
        ensures
            forall|ops: Seq<Operation>, env: Seq<(Seq<char>, i64)>|
                #[trigger] sat(formula_view(f), ops, env) == reps_distinct(self.tuple@, env),
            formula_vars(formula_view(f)) == rep_names(self.tuple@),
    {
        let ghost t = self.tuple@;
        proof {
            lemma_classes_shape(t);
        }
        let all = canonical_vars(self.tuple.len());
        let mut vs: Vec<Variable> = Vec::new();
        let mut i: usize = 0;
        while i < self.pattern.len()
            invariant
                i <= self.pattern.len(),
                self.wf(),
                t == self.tuple@,
                all.len() == t.len(),
                forall|k: int| 0 <= k < t.len() ==> (#[trigger] all@[k]).sym@ == var_name(k),
                classes(t).len() == self.pattern.len(),
                forall|c: int| 0 <= c < classes(t).len() ==> (#[trigger] classes(t)[c]).len() > 0,
                forall|c: int, k: int|
                    0 <= c < classes(t).len() && 0 <= k < classes(t)[c].len() ==> (#[trigger] classes(t)[c][k]) < t.len(),
                vs.len() == i,
                forall|k: int| 0 <= k < i ==> (#[trigger] vs@[k]).sym@ == var_name(representatives(t)[k]),
            decreases self.pattern.len() - i,
        {
            proof {
                assert(self.pattern.deep_view()[i as int] == self.pattern@[i as int]@);
                assert(classes(t)[i as int].len() > 0);
                assert(classes(t)[i as int][0] < t.len());
            }
            let rep = self.pattern[i][0];
            vs.push(all[rep].copy());
            i += 1;
        }
        let ghost r = representatives(t);
        let ghost names_all = rep_names(t);
        let mut f = formulas::true_formula(Some(formulas::copy_vars(&vs)));
        proof {
            assert(formulas::name_set(vs@) =~= names_all) by {
                assert forall|n: Seq<char>| formulas::name_set(vs@).contains(n) implies names_all.contains(n) by {
                    let k = choose|k: int| 0 <= k < formulas::names(vs@).len() && formulas::names(vs@)[k] == n;
                    assert(n == var_name(r[k]));
                }
                assert forall|n: Seq<char>| names_all.contains(n) implies formulas::name_set(vs@).contains(n) by {
                    let x = choose|x: int| 0 <= x < r.len() && n == var_name(#[trigger] r[x]);
                    assert(formulas::names(vs@)[x] == n);
                }
            }
        }
        if vs.len() == 1 {
            f = f.and_formula(&formulas::eq(var_term(&vs, 0), var_term(&vs, 0)));
            proof {
                assert(term_vars(TermV::Var(vs@[0].sym@)).union(term_vars(TermV::Var(vs@[0].sym@))) =~= names_all) by {
                    assert forall|n: Seq<char>| names_all.contains(n) implies n == vs@[0].sym@ by {
                        let x = choose|x: int| 0 <= x < r.len() && n == var_name(#[trigger] r[x]);
                    }
                }
            }
        }
        proof {
            lemma_classes_shape(t);
            assert forall|x: int, y: int| 0 <= x < y < r.len() implies r[x] < r[y] by {
                assert(classes(t)[x][0] < classes(t)[y][0]);
            }
            if r.len() >= 1 {
                assert(names_all =~= compared_names(r, r.len() as int, 0));
            } else {
                assert(names_all =~= compared_names(r, r.len() as int, 0));
            }
        }
        proof {
            assert forall|ops: Seq<Operation>, env: Seq<(Seq<char>, i64)>|
                #[trigger] sat(formula_view(f), ops, env) == pairs_distinct(r, env, 0, 0) by {
                if vs.len() == 1 {
                    law_and_formula_is_conjunction(
                        formulas::FormulaV::True(formulas::name_set(vs@)),
                        eq_spec(TermV::Var(vs@[0].sym@), TermV::Var(vs@[0].sym@)),
                        ops,
                        env,
                    );
                }
            }
        }
        let mut a: usize = 0;
        while a < vs.len()
            invariant
                a <= vs.len(),
                vs.len() == r.len(),
                forall|k: int| 0 <= k < vs.len() ==> (#[trigger] vs@[k]).sym@ == var_name(r[k]),
                forall|ops: Seq<Operation>, env: Seq<(Seq<char>, i64)>|
                    #[trigger] sat(formula_view(f), ops, env) == pairs_distinct(r, env, a as int, 0),
                forall|x: int| 0 <= x < r.len() ==> r[x] >= 0,
                forall|x: int, y: int| 0 <= x < y < r.len() ==> r[x] < r[y],
                names_all == compared_names(r, r.len() as int, 0),
                vs.len() <= 1 ==> formula_view(f) == FormulaV::True(names_all),
                vs.len() >= 2 && a == 0 ==> formula_view(f) == FormulaV::True(names_all),
                vs.len() >= 2 && a >= 1 ==> neg_conj_shape(formula_view(f)) && formula_vars(formula_view(f)) == compared_names(r, a as int, 0),
            decreases vs.len() - a,
        {
            let mut b: usize = 0;
            while b < vs.len()
                invariant
                    a < vs.len(),
                    b <= vs.len(),
                    vs.len() == r.len(),
                    forall|k: int| 0 <= k < vs.len() ==> (#[trigger] vs@[k]).sym@ == var_name(r[k]),
                    forall|ops: Seq<Operation>, env: Seq<(Seq<char>, i64)>|
                        #[trigger] sat(formula_view(f), ops, env) == pairs_distinct(r, env, a as int, b as int),
                    forall|x: int| 0 <= x < r.len() ==> r[x] >= 0,
                    forall|x: int, y: int| 0 <= x < y < r.len() ==> r[x] < r[y],
                    names_all == compared_names(r, r.len() as int, 0),
                    vs.len() <= 1 ==> formula_view(f) == FormulaV::True(names_all),
                    vs.len() >= 2 && a == 0 && b <= 1 ==> formula_view(f) == FormulaV::True(names_all),
                    vs.len() >= 2 && !(a == 0 && b <= 1) ==> neg_conj_shape(formula_view(f)) && formula_vars(formula_view(f))
                        == compared_names(r, a as int, b as int),
                decreases vs.len() - b,
            {
                if a != b {
                    let ghost f0 = formula_view(f);
                    let e = formulas::eq(var_term(&vs, a), var_term(&vs, b)).neg();
                    f = f.and_formula(&e);
                    proof {
                        assert(vs@[a as int].sym@ == var_name(r[a as int]));
                        assert(vs@[b as int].sym@ == var_name(r[b as int]));
                        assert forall|ops: Seq<Operation>, env: Seq<(Seq<char>, i64)>|
                            #[trigger] sat(formula_view(f), ops, env) == pairs_distinct(r, env, a as int, b + 1) by {
                            lemma_and_distinct(f0, r[a as int], r[b as int], ops, env);
                        }
                        let na = var_name(r[a as int]);
                        let nb = var_name(r[b as int]);
                        assert(r[a as int] != r[b as int]) by {
                            if a < b {
                                assert(r[a as int] < r[b as int]);
                            } else {
                                assert(r[b as int] < r[a as int]);
                            }
                        }
                        assert(na != nb) by {
                            if na == nb {
                                lemma_var_name_injective(r[a as int], r[b as int]);
                            }
                        }
                        let ev = formulas::eq_spec(TermV::Var(na), TermV::Var(nb));
                        assert(ev == FormulaV::Eq(TermV::Var(na), TermV::Var(nb)));
                        let nv = formula_view(e);
                        assert(nv == neg_spec(ev));
                        assert(nv == FormulaV::Neg(Box::new(ev)));
                        assert(formula_vars(nv) == formula_vars(ev));
                        assert(formula_vars(ev) == term_vars(TermV::Var(na)).union(term_vars(TermV::Var(nb))));
                        assert(term_vars(TermV::Var(na)) == set![na]);
                        assert(term_vars(TermV::Var(nb)) == set![nb]);
                        assert(formula_vars(nv) =~= set![na, nb]);
                        lemma_compared_step(r, a as int, b as int);
                        if vs.len() >= 2 {
                            if a == 0 && b <= 1 {
                                assert(formula_view(f) == nv);
                                assert(compared_names(r, 0, 1) =~= set![na]) by {
                                    assert forall|n: Seq<char>| compared_names(r, 0, 1).contains(n) implies n == na by {
                                        let x = choose|x: int| 0 <= x < r.len() && n == var_name(#[trigger] r[x]) && (0 >= 1 || x == 0 || x < 1);
                                    }
                                    assert(na == var_name(r[0]) && (0 >= 1 || 0 == 0 || 0 < 1));
                                }
                                assert(compared_names(r, a as int, b + 1) =~= set![na, nb]);
                            } else {
                                assert(!complementary(f0, nv));
                                lemma_and_spec_vars(f0, nv);
                            }
                        }
                    }
                } else {
                    proof {
                        assert forall|ops: Seq<Operation>, env: Seq<(Seq<char>, i64)>|
                            #[trigger] sat(formula_view(f), ops, env) == pairs_distinct(r, env, a as int, b + 1) by {
                        }
                        lemma_compared_step(r, a as int, b as int);
                        if vs.len() >= 2 && !(a == 0 && b <= 1) {
                            assert(a >= 1);
                            assert(compared_names(r, a as int, b as int).contains(var_name(r[a as int])));
                            assert(compared_names(r, a as int, b + 1) =~= compared_names(r, a as int, b as int));
                        }
                    }
                }
                b += 1;
            }
            proof {
                assert forall|ops: Seq<Operation>, env: Seq<(Seq<char>, i64)>|
                    #[trigger] sat(formula_view(f), ops, env) == pairs_distinct(r, env, a + 1, 0) by {
                }
                lemma_compared_row_end(r, a as int);
            }
            a += 1;
        }
        proof {
            assert forall|ops: Seq<Operation>, env: Seq<(Seq<char>, i64)>|
                #[trigger] sat(formula_view(f), ops, env) == reps_distinct(t, env) by {
            }
        }
        f
    }
}

/// Consecutive members of the classes before `c`, and the first `k` consecutive pairs of class `c`,
/// take equal values.
pub open spec fn class_pairs_equal(cs: Seq<Seq<usize>>, env: Seq<(Seq<char>, i64)>, c: int, k: int) -> bool {
    forall|c1: int, k1: int|
        0 <= c1 < cs.len() && 0 <= k1 && k1 + 1 < cs[c1].len() && (c1 < c || (c1 == c && k1 < k)) ==> var_value(
            #[trigger] cs[c1][k1] as int,
            env,
        ) == var_value(cs[c1][k1 + 1] as int, env)
}

/// Representatives `a` and `b < a` differ, for `a < c`, and for `a == c` with `b < d`.
pub open spec fn reps_lower_distinct(r: Seq<int>, env: Seq<(Seq<char>, i64)>, c: int, d: int) -> bool {
    forall|a: int, b: int|
        0 <= b < a < r.len() && (a < c || (a == c && b < d)) ==> var_value(#[trigger] r[a], env) != var_value(
            #[trigger] r[b],
            env,
        )
}

impl Pattern {
    /// The formula that recovers the tuple's equalities: the members of each class are equal and
    /// the representatives of distinct classes differ.
    pub fn postprocessed_formula(&self) -> (f: Formula)
        requires
            self.wf(),
            self.tuple.len() <= i32::MAX,
        ensures
            forall|ops: Seq<Operation>, env: Seq<(Seq<char>, i64)>|
                #[trigger] sat(formula_view(f), ops, env) == (classes_equal(self.tuple@, env) && reps_distinct(
                    self.tuple@,
                    env,
                )),
    {
        let ghost t = self.tuple@;
        let ghost cs = classes(t);
        let ghost r = representatives(t);
        proof {
            lemma_classes_shape(t);
        }
        let all = canonical_vars(self.tuple.len());
        let mut f = formulas::true_formula(None);
        let mut c: usize = 0;
        while c < self.pattern.len()
            invariant
                c <= self.pattern.len(),
                self.wf(),
                t == self.tuple@,
                cs == classes(t),
                r == representatives(t),
                all.len() == t.len(),
                forall|k: int| 0 <= k < t.len() ==> (#[trigger] all@[k]).sym@ == var_name(k),
                cs.len() == self.pattern.len(),
                forall|c1: int| 0 <= c1 < cs.len() ==> (#[trigger] cs[c1]).len() > 0,
                forall|c1: int, k: int| 0 <= c1 < cs.len() && 0 <= k < cs[c1].len() ==> (#[trigger] cs[c1][k]) < t.len(),
                forall|ops: Seq<Operation>, env: Seq<(Seq<char>, i64)>|
                    #[trigger] sat(formula_view(f), ops, env) == (class_pairs_equal(cs, env, c as int, 0)
                        && reps_lower_distinct(r, env, c as int, 0)),
            decreases self.pattern.len() - c,
        {
            let cls = &self.pattern[c];
            proof {
                assert(self.pattern.deep_view()[c as int] == cls@);
            }
            let mut k: usize = 0;
            while k + 1 < cls.len()
                invariant
                    c < cs.len(),
                    cls@ == cs[c as int],
                    cls.len() > 0,
                    k + 1 <= cls.len(),
                    all.len() == t.len(),
                    forall|j: int| 0 <= j < t.len() ==> (#[trigger] all@[j]).sym@ == var_name(j),
                    forall|j: int| 0 <= j < cls.len() ==> (#[trigger] cls@[j]) < t.len(),
                    forall|ops: Seq<Operation>, env: Seq<(Seq<char>, i64)>|
                        #[trigger] sat(formula_view(f), ops, env) == (class_pairs_equal(cs, env, c as int, k as int)
                            && reps_lower_distinct(r, env, c as int, 0)),
                decreases cls.len() - k,
            {
                let ghost f0 = formula_view(f);
                let e = formulas::eq(var_term(&all, cls[k]), var_term(&all, cls[k + 1]));
                f = f.and_formula(&e);
                proof {
                    assert(cs[c as int][k as int] < t.len());
                    assert(cs[c as int][k + 1] < t.len());
                    assert forall|ops: Seq<Operation>, env: Seq<(Seq<char>, i64)>|
                        #[trigger] sat(formula_view(f), ops, env) == (class_pairs_equal(cs, env, c as int, k + 1)
                            && reps_lower_distinct(r, env, c as int, 0)) by {
                        lemma_and_equal(f0, cls@[k as int] as int, cls@[k + 1] as int, ops, env);
                    }
                }
                k += 1;
            }
            proof {
                assert forall|ops: Seq<Operation>, env: Seq<(Seq<char>, i64)>|
                    #[trigger] sat(formula_view(f), ops, env) == (class_pairs_equal(cs, env, c + 1, 0)
                        && reps_lower_distinct(r, env, c as int, 0)) by {
                }
                assert(cls@[0] < t.len());
                assert(r[c as int] == cls@[0] as int);
            }
            let mut d: usize = 0;
            while d < c
                invariant
                    c < cs.len(),
                    d <= c,
                    cs.len() == self.pattern.len(),
                    self.pattern.deep_view() == cs,
                    r == representatives(t),
                    cs == classes(t),
                    r[c as int] < t.len(),
                    all.len() == t.len(),
                    forall|j: int| 0 <= j < t.len() ==> (#[trigger] all@[j]).sym@ == var_name(j),
                    forall|c1: int| 0 <= c1 < cs.len() ==> (#[trigger] cs[c1]).len() > 0,
                    forall|c1: int, k: int| 0 <= c1 < cs.len() && 0 <= k < cs[c1].len() ==> (#[trigger] cs[c1][k]) < t.len(),
                    forall|ops: Seq<Operation>, env: Seq<(Seq<char>, i64)>|
                        #[trigger] sat(formula_view(f), ops, env) == (class_pairs_equal(cs, env, c + 1, 0)
                            && reps_lower_distinct(r, env, c as int, d as int)),
                decreases c - d,
            {
                proof {
                    assert(self.pattern.deep_view()[d as int] == self.pattern@[d as int]@);
                    assert(cs[d as int].len() > 0);
                    assert(cs[d as int][0] < t.len());
                    assert(self.pattern.deep_view()[c as int] == self.pattern@[c as int]@);
                }
                let ghost f0 = formula_view(f);
                let rep = self.pattern[c][0];
                let other = self.pattern[d][0];
                let e = formulas::eq(var_term(&all, rep), var_term(&all, other)).neg();
                f = f.and_formula(&e);
                proof {
                    assert(r[d as int] == other as int);
                    assert(r[c as int] == rep as int);
                    assert forall|ops: Seq<Operation>, env: Seq<(Seq<char>, i64)>|
                        #[trigger] sat(formula_view(f), ops, env) == (class_pairs_equal(cs, env, c + 1, 0)
                            && reps_lower_distinct(r, env, c as int, d + 1)) by {
                        lemma_and_distinct(f0, rep as int, other as int, ops, env);
                    }
                }
                d += 1;
            }
            proof {
                assert forall|ops: Seq<Operation>, env: Seq<(Seq<char>, i64)>|
                    #[trigger] sat(formula_view(f), ops, env) == (class_pairs_equal(cs, env, c + 1, 0)
                        && reps_lower_distinct(r, env, c + 1, 0)) by {
                }
            }
            c += 1;
        }
        proof {
            assert forall|ops: Seq<Operation>, env: Seq<(Seq<char>, i64)>|
                #[trigger] sat(formula_view(f), ops, env) == (classes_equal(t, env) && reps_distinct(t, env)) by {
                if reps_lower_distinct(r, env, r.len() as int, 0) {
                    assert forall|a: int, b: int|
                        0 <= a < r.len() && 0 <= b < r.len() && a != b implies var_value(#[trigger] r[a], env)
                            != var_value(#[trigger] r[b], env) by {
                        if a < b {
                            assert(var_value(r[b], env) != var_value(r[a], env));
                        }
                    }
                }
            }
        }
        f
    }
}

/// Some piece of the split carries equality pattern `p`.
pub open spec fn pattern_listed(res: Seq<Relation>, p: Seq<Seq<usize>>) -> bool {
    exists|k: int| 0 <= k < res.len() && classes((#[trigger] res[k]).pattern.unwrap().tuple@) == p
}

/// Some row of `rows` has equality pattern `p` and distinct values `s`.
pub open spec fn piece_has(rows: Seq<Seq<i64>>, p: Seq<Seq<usize>>, s: Seq<i64>) -> bool {
    exists|i: int| 0 <= i < rows.len() && classes(#[trigger] rows[i]) == p && pruned(rows[i]) == s
}

/// Splits a relation by the equality pattern of its tuples: one relation per pattern, named by
/// the pattern and holding the tuples' distinct values.
pub fn preprocesamiento2(target: &Relation) -> (res: Vec<Relation>)
    requires
        target.wf(),
    ensures
        forall|k: int| 0 <= k < res.len() ==> {
            let piece = #[trigger] res@[k];
            &&& piece.wf()
            &&& piece.pattern.is_some()
            &&& piece.pattern.unwrap().wf()
            &&& target.rows().contains(piece.pattern.unwrap().tuple@)
            &&& piece.sym@ == target.sym@ + pattern_name(piece.pattern.unwrap().tuple@)
            &&& piece.arity == pruned(piece.pattern.unwrap().tuple@).len()
            &&& forall|s: Seq<i64>| #[trigger] piece.has(s) <==> piece_has(target.rows(), classes(piece.pattern.unwrap().tuple@), s)
            &&& piece.superrel_sym.is_some() && piece.superrel_sym.unwrap()@ == target.sym@
            &&& piece.superrel.is_some() && same_relation(*piece.superrel.unwrap(), *target)
        },
        forall|k: int, l: int|
            0 <= k < l < res.len() ==> classes((#[trigger] res@[k]).pattern.unwrap().tuple@) != classes(
                (#[trigger] res@[l]).pattern.unwrap().tuple@,
            ),
        forall|i: int| 0 <= i < target.rows().len() ==> pattern_listed(res@, classes(#[trigger] target.rows()[i])),
{
    let ghost rows = target.rows();
    let mut reps: Vec<Pattern> = Vec::new();
    let mut group_of: Vec<usize> = Vec::new();
    let mut prunes: Vec<Vec<i64>> = Vec::new();
    let mut i: usize = 0;
    while i < target.r.len()
        invariant
            i <= target.r.len(),
            rows == target.rows(),
            group_of.len() == i,
            prunes.len() == i,
            forall|k: int| 0 <= k < reps.len() ==> (#[trigger] reps@[k]).wf(),
            forall|k: int| 0 <= k < reps.len() ==> rows.contains((#[trigger] reps@[k]).tuple@),
            forall|k: int, l: int|
                0 <= k < l < reps.len() ==> classes((#[trigger] reps@[k]).tuple@) != classes((#[trigger] reps@[l]).tuple@),
            forall|j: int| 0 <= j < i ==> #[trigger] group_of@[j] < reps.len(),
            forall|j: int| 0 <= j < i ==> classes(rows[j]) == classes(reps@[#[trigger] group_of@[j] as int].tuple@),
            forall|j: int| 0 <= j < i ==> (#[trigger] prunes@[j])@ == pruned(rows[j]),
        decreases target.r.len() - i,
    {
        proof {
            lemma_tuple_deep_view(target.r@[i as int]);
            assert(rows[i as int] == target.r@[i as int]@);
        }
        let p = Pattern::new(copy_tuple(target.r[i].as_slice()));
        let mut k: usize = 0;
        while k < reps.len() && !reps[k].same_pattern(&p)
            invariant
                k <= reps.len(),
                p.wf(),
                forall|k2: int| 0 <= k2 < reps.len() ==> (#[trigger] reps@[k2]).wf(),
                forall|k2: int| 0 <= k2 < k ==> classes((#[trigger] reps@[k2]).tuple@) != classes(p.tuple@),
            decreases reps.len() - k,
        {
            k += 1;
        }
        prunes.push(copy_tuple(p.pruned_tuple.as_slice()));
        if k == reps.len() {
            proof {
                assert(rows.contains(p.tuple@)) by {
                    assert(rows[i as int] == p.tuple@);
                }
            }
            reps.push(p);
        }
        group_of.push(k);
        i += 1;
    }
    let mut res: Vec<Relation> = Vec::new();
    let mut k: usize = 0;
    while k < reps.len()
        invariant
            k <= reps.len(),
            rows == target.rows(),
            target.wf(),
            group_of.len() == rows.len(),
            prunes.len() == rows.len(),
            res.len() == k,
            forall|k2: int| 0 <= k2 < reps.len() ==> (#[trigger] reps@[k2]).wf(),
            forall|k2: int| 0 <= k2 < reps.len() ==> rows.contains((#[trigger] reps@[k2]).tuple@),
            forall|k2: int, l: int|
                0 <= k2 < l < reps.len() ==> classes((#[trigger] reps@[k2]).tuple@) != classes((#[trigger] reps@[l]).tuple@),
            forall|j: int| 0 <= j < rows.len() ==> #[trigger] group_of@[j] < reps.len(),
            forall|j: int| 0 <= j < rows.len() ==> classes(rows[j]) == classes(reps@[#[trigger] group_of@[j] as int].tuple@),
            forall|j: int| 0 <= j < rows.len() ==> (#[trigger] prunes@[j])@ == pruned(rows[j]),
            forall|k2: int| 0 <= k2 < k ==> (#[trigger] res@[k2]).pattern.is_some() && res@[k2].pattern.unwrap().tuple@ == reps@[k2].tuple@,
            forall|k2: int| 0 <= k2 < k ==> {
                let piece = #[trigger] res@[k2];
                &&& piece.wf()
                &&& piece.pattern.is_some()
                &&& piece.pattern.unwrap().wf()
                &&& rows.contains(piece.pattern.unwrap().tuple@)
                &&& piece.sym@ == target.sym@ + pattern_name(piece.pattern.unwrap().tuple@)
                &&& piece.arity == pruned(piece.pattern.unwrap().tuple@).len()
                &&& forall|s: Seq<i64>| #[trigger] piece.has(s) <==> piece_has(rows, classes(piece.pattern.unwrap().tuple@), s)
                &&& piece.superrel_sym.is_some() && piece.superrel_sym.unwrap()@ == target.sym@
                &&& piece.superrel.is_some() && same_relation(*piece.superrel.unwrap(), *target)
            },
        decreases reps.len() - k,
    {
        let pat = &reps[k];
        let ghost pk = classes(pat.tuple@);
        let name = pat.name();
        let mut sym = target.sym.clone();
        push_str(&mut sym, name.as_str());
        let mut rel = Relation::new(sym.as_str(), pat.pruned_tuple.len());
        proof {
            lemma_classes_shape(pat.tuple@);
        }
        let mut j: usize = 0;
        while j < prunes.len()
            invariant
                j <= prunes.len(),
                k < reps.len(),
                pat == reps@[k as int],
                pat.wf(),
                pk == classes(pat.tuple@),
                rel.wf(),
                rel.sym@ == target.sym@ + pattern_name(pat.tuple@),
                rel.arity == pruned(pat.tuple@).len(),
                rel.pattern.is_none(),
                rel.superrel_sym.is_none(),
                rel.superrel.is_none(),
                group_of.len() == rows.len(),
                prunes.len() == rows.len(),
                forall|k2: int, l: int|
                    0 <= k2 < l < reps.len() ==> classes((#[trigger] reps@[k2]).tuple@) != classes((#[trigger] reps@[l]).tuple@),
                forall|j2: int| 0 <= j2 < rows.len() ==> #[trigger] group_of@[j2] < reps.len(),
                forall|j2: int| 0 <= j2 < rows.len() ==> classes(rows[j2]) == classes(reps@[#[trigger] group_of@[j2] as int].tuple@),
                forall|j2: int| 0 <= j2 < rows.len() ==> (#[trigger] prunes@[j2])@ == pruned(rows[j2]),
                forall|s: Seq<i64>| #[trigger] rel.has(s) <==> exists|j2: int|
                    0 <= j2 < j && classes(#[trigger] rows[j2]) == pk && pruned(rows[j2]) == s,
            decreases prunes.len() - j,
        {
            let ghost before = rel;
            let ghost g = group_of@[j as int] as int;
            proof {
                if g != k {
                    if g < k {
                        assert(classes(reps@[g].tuple@) != classes(reps@[k as int].tuple@));
                    } else {
                        assert(classes(reps@[k as int].tuple@) != classes(reps@[g].tuple@));
                    }
                }
                assert((classes(rows[j as int]) == pk) == (g == k));
            }
            if group_of[j] == k {
                proof {
                    assert(classes(rows[j as int]).len() == pruned(rows[j as int]).len());
                    assert(classes(pat.tuple@).len() == pruned(pat.tuple@).len());
                    assert(prunes@[j as int]@.len() == rel.arity);
                }
                rel.add(copy_tuple(prunes[j].as_slice()));
            }
            proof {
                assert forall|s: Seq<i64>| #[trigger] rel.has(s) <==> exists|j2: int|
                    0 <= j2 < j + 1 && classes(#[trigger] rows[j2]) == pk && pruned(rows[j2]) == s by {
                    if rel.has(s) && !before.has(s) {
                        assert(classes(rows[j as int]) == pk && pruned(rows[j as int]) == s);
                    }
                    if before.has(s) {
                        let j2 = choose|j2: int| 0 <= j2 < j && classes(#[trigger] rows[j2]) == pk && pruned(rows[j2]) == s;
                        assert(0 <= j2 < j + 1 && classes(rows[j2]) == pk && pruned(rows[j2]) == s);
                    }
                    if exists|j2: int| 0 <= j2 < j + 1 && classes(#[trigger] rows[j2]) == pk && pruned(rows[j2]) == s {
                        let j2 = choose|j2: int| 0 <= j2 < j + 1 && classes(#[trigger] rows[j2]) == pk && pruned(rows[j2]) == s;
                        if j2 < j {
                            assert(before.has(s));
                        } else {
                            assert(g == k);
                        }
                    }
                }
            }
            j += 1;
        }
        proof {
            assert forall|s: Seq<i64>| #[trigger] rel.has(s) <==> piece_has(rows, pk, s) by {
                if piece_has(rows, pk, s) {
                    let j2 = choose|j2: int| 0 <= j2 < rows.len() && classes(#[trigger] rows[j2]) == pk && pruned(rows[j2]) == s;
                    assert(0 <= j2 < prunes.len() && classes(rows[j2]) == pk && pruned(rows[j2]) == s);
                }
            }
        }
        let ghost rows_before = rel.rows();
        let ghost rel0 = rel;
        let pc = pat.copy();
        rel.pattern = Some(Box::new(pc));
        rel.superrel_sym = Some(target.sym.clone());
        rel.superrel = Some(Box::new(target.copy()));
        proof {
            let piece = rel;
            assert(piece.rows() == rows_before);
            assert(piece.pattern.unwrap() == pc);
            assert(pc.tuple@ == pat.tuple@);
            assert(classes(piece.pattern.unwrap().tuple@) == pk);
            assert forall|s: Seq<i64>| #[trigger] piece.has(s) <==> piece_has(rows, pk, s) by {
                assert(rel0.has(s) <==> piece_has(rows, pk, s));
                assert(piece.has(s) == rel0.has(s));
            }
            assert(piece.pattern.unwrap().wf());
            assert(forall|s: Seq<i64>| #[trigger] piece.has(s) <==> piece_has(rows, classes(piece.pattern.unwrap().tuple@), s));
        }
        let ghost before = res@;
        res.push(rel);
        proof {
            assert forall|k2: int| 0 <= k2 < k + 1 implies (#[trigger] res@[k2]).pattern.is_some() && res@[k2].pattern.unwrap().tuple@ == reps@[k2].tuple@ by {
                if k2 < k {
                    assert(res@[k2] == before[k2]);
                }
            }
        }
        k += 1;
    }
    proof {
        assert forall|i2: int| 0 <= i2 < target.rows().len() implies pattern_listed(res@, classes(#[trigger] target.rows()[i2])) by {
            let g = group_of@[i2] as int;
            assert(res@[g].pattern.unwrap().tuple@ == reps@[g].tuple@);
            assert(classes(rows[i2]) == classes(reps@[g].tuple@));
            assert(0 <= g < res.len() && classes(res@[g].pattern.unwrap().tuple@) == classes(target.rows()[i2]));
        }
        assert forall|k2: int, l: int|
            0 <= k2 < l < res.len() implies classes((#[trigger] res@[k2]).pattern.unwrap().tuple@) != classes(
                (#[trigger] res@[l]).pattern.unwrap().tuple@,
            ) by {
            assert(res@[k2].pattern.unwrap().tuple@ == reps@[k2].tuple@);
            assert(res@[l].pattern.unwrap().tuple@ == reps@[l].tuple@);
        }
    }
    res
}

/// Copy of a list of positions.
pub fn copy_idx(c: &Vec<usize>) -> (r: Vec<usize>)
    ensures
        r@ == c@,
        r.deep_view() == c@,
{
    let mut r: Vec<usize> = Vec::new();
    let mut i: usize = 0;
    while i < c.len()
        invariant
            i <= c.len(),
            r@ == c@.take(i as int),
        decreases c.len() - i,
    {
        r.push(c[i]);
        i += 1;
        proof {
            assert(r@ =~= c@.take(i as int));
        }
    }
    proof {
        assert(r@ =~= c@);
        assert(r.deep_view() =~= c@);
    }
    r
}

/// How a class changes when the tuple grows by one position.
pub proof fn lemma_class_of_step(t: Seq<i64>, x: i64)
    requires
        t.len() > 0,
    ensures
        class_of(t, x) == if t.last() == x {
            class_of(t.drop_last(), x).push((t.len() - 1) as usize)
        } else {
            class_of(t.drop_last(), x)
        },
{
}

/// The distinct values hold no value twice, and hold exactly the values of the tuple.
pub proof fn lemma_pruned_distinct(t: Seq<i64>)
    ensures
        pruned(t).no_duplicates(),
        forall|x: i64| pruned(t).contains(x) <==> t.contains(x),
    decreases t.len(),
{
    if t.len() > 0 {
        lemma_pruned_distinct(t.drop_last());
        let p = pruned(t.drop_last());
        let d = t.drop_last();
        assert forall|x: i64| pruned(t).contains(x) <==> t.contains(x) by {
            lemma_push_contains(p, t.last(), x);
            lemma_push_contains(d, t.last(), x);
            assert(d.push(t.last()) =~= t);
        }
        if !p.contains(t.last()) {
            assert forall|i: int, j: int| 0 <= i < j < pruned(t).len() implies pruned(t)[i] != pruned(t)[j] by {
                if j == p.len() {
                    assert(p[i] == pruned(t)[i]);
                }
            }
        }
    }
}

/// What a sequence holds after a push.
pub proof fn lemma_push_contains(s: Seq<i64>, a: i64, x: i64)
    ensures
        s.push(a).contains(x) <==> (s.contains(x) || x == a),
{
    if s.contains(x) {
        let k = choose|k: int| 0 <= k < s.len() && s[k] == x;
        assert(s.push(a)[k] == x);
    }
    if x == a {
        assert(s.push(a)[s.len() as int] == x);
    }
    if s.push(a).contains(x) {
        let k = choose|k: int| 0 <= k < s.len() + 1 && s.push(a)[k] == x;
        if k < s.len() {
            assert(s[k] == x);
        }
    }
}

/// A value absent from the distinct values has an empty class.
pub proof fn lemma_class_of_absent(t: Seq<i64>, x: i64)
    requires
        !pruned(t).contains(x),
    ensures
        class_of(t, x) == Seq::<usize>::empty(),
    decreases t.len(),
{
    if t.len() > 0 {
        let p = pruned(t.drop_last());
        if t.last() == x {
            if p.contains(x) {
            } else {
                assert(pruned(t) == p.push(x));
                assert(pruned(t)[p.len() as int] == x);
            }
        } else {
            assert(!p.contains(x)) by {
                if p.contains(x) {
                    let k = choose|k: int| 0 <= k < p.len() && p[k] == x;
                    if !p.contains(t.last()) {
                        assert(pruned(t)[k] == x);
                    }
                }
            }
            lemma_class_of_absent(t.drop_last(), x);
        }
    }
}

/// A decimal digit character.
pub open spec fn is_digit(c: char) -> bool {
    48 <= c as u32 <= 57
}

/// The text of a non-negative number is a non-empty string of digits, and
/// distinct numbers have distinct texts.
proof fn lemma_int_text_digits(n: int)
    requires
        n >= 0,
    ensures
        int_text(n).len() >= 1,
        forall|k: int| 0 <= k < int_text(n).len() ==> is_digit(#[trigger] int_text(n)[k]),
{
    lemma_dec_digits_len(n as nat);
    assert forall|k: int| 0 <= k < int_text(n).len() implies is_digit(#[trigger] int_text(n)[k]) by {
        let d = dec_digits(n as nat)[k];
        assert(d < 10);
        assert(int_text(n)[k] == ascii_digit(d));
        assert(ascii_digit(d) as u32 == 48 + d);
    }
}

proof fn lemma_int_text_injective(n: int, m: int)
    requires
        n >= 0,
        m >= 0,
        int_text(n) == int_text(m),
    ensures
        n == m,
{
    let dn = dec_digits(n as nat);
    let dm = dec_digits(m as nat);
    lemma_dec_digits_len(n as nat);
    lemma_dec_digits_len(m as nat);
    assert(int_text(n).len() == dn.len());
    assert(int_text(m).len() == dm.len());
    assert(dn =~= dm) by {
        assert forall|k: int| 0 <= k < dn.len() implies dn[k] == dm[k] by {
            assert(int_text(n)[k] == int_text(m)[k]);
            assert(int_text(n)[k] == ascii_digit(dn[k]));
            assert(int_text(m)[k] == ascii_digit(dm[k]));
            assert(dn[k] < 10);
            assert(dm[k] < 10);
            assert(ascii_digit(dn[k]) as u32 == 48 + dn[k]);
            assert(ascii_digit(dm[k]) as u32 == 48 + dm[k]);
        }
    }
    lemma_dec_digits_injective(n as nat, m as nat);
}

/// A string read as a prefix that is empty or ends with `sep`, followed by a part
/// without `sep`, is read so in one way only.
proof fn lemma_split_unique(p1: Seq<char>, x1: Seq<char>, p2: Seq<char>, x2: Seq<char>, sep: char)
    requires
        p1 + x1 == p2 + x2,
        p1.len() == 0 || p1.last() == sep,
        p2.len() == 0 || p2.last() == sep,
        forall|k: int| 0 <= k < x1.len() ==> #[trigger] x1[k] != sep,
        forall|k: int| 0 <= k < x2.len() ==> #[trigger] x2[k] != sep,
    ensures
        p1 == p2,
        x1 == x2,
{
    let s = p1 + x1;
    if p1.len() < p2.len() {
        assert(s[p2.len() - 1] == p2.last());
        assert(s[p2.len() - 1] == x1[p2.len() - 1 - p1.len()]);
    } else if p2.len() < p1.len() {
        assert(s[p1.len() - 1] == p1.last());
        assert((p2 + x2)[p1.len() - 1] == x2[p1.len() - 1 - p2.len()]);
    }
    assert(p1 =~= s.subrange(0, p1.len() as int));
    assert(p2 =~= (p2 + x2).subrange(0, p2.len() as int));
    assert(x1 =~= s.subrange(p1.len() as int, s.len() as int));
    assert(x2 =~= (p2 + x2).subrange(p2.len() as int, s.len() as int));
}

/// The text of a class holds digits and commas only.
proof fn lemma_class_text_chars(c: Seq<usize>)
    ensures
        forall|k: int| 0 <= k < class_text(c).len() ==> is_digit(#[trigger] class_text(c)[k]) || class_text(c)[k] == ',',
        c.len() >= 1 ==> class_text(c).len() >= 1,
    decreases c.len(),
{
    if c.len() == 1 {
        lemma_int_text_digits(c[0] as int);
    } else if c.len() >= 2 {
        lemma_class_text_chars(c.drop_last());
        lemma_int_text_digits(c.last() as int);
        let a = class_text(c.drop_last());
        let b = int_text(c.last() as int);
        assert forall|k: int| 0 <= k < class_text(c).len() implies is_digit(#[trigger] class_text(c)[k]) || class_text(c)[k] == ',' by {
            if k < a.len() {
                assert(class_text(c)[k] == a[k]);
            } else if k > a.len() {
                assert(class_text(c)[k] == b[k - a.len() - 1]);
            }
        }
    }
}

/// Distinct non-empty classes have distinct texts.
proof fn lemma_class_text_injective(c1: Seq<usize>, c2: Seq<usize>)
    requires
        c1.len() >= 1,
        c2.len() >= 1,
        class_text(c1) == class_text(c2),
    ensures
        c1 == c2,
    decreases c1.len(),
{
    let p1 = if c1.len() == 1 { Seq::<char>::empty() } else { class_text(c1.drop_last()) + seq![','] };
    let p2 = if c2.len() == 1 { Seq::<char>::empty() } else { class_text(c2.drop_last()) + seq![','] };
    let x1 = int_text(c1.last() as int);
    let x2 = int_text(c2.last() as int);
    lemma_int_text_digits(c1.last() as int);
    lemma_int_text_digits(c2.last() as int);
    assert(class_text(c1) =~= p1 + x1);
    assert(class_text(c2) =~= p2 + x2);
    assert forall|k: int| 0 <= k < x1.len() implies #[trigger] x1[k] != ',' by {
        assert(is_digit(x1[k]));
    }
    assert forall|k: int| 0 <= k < x2.len() implies #[trigger] x2[k] != ',' by {
        assert(is_digit(x2[k]));
    }
    lemma_split_unique(p1, x1, p2, x2, ',');
    lemma_int_text_injective(c1.last() as int, c2.last() as int);
    if c1.len() >= 2 {
        assert(c2.len() >= 2);
        assert(p1.drop_last() =~= class_text(c1.drop_last()));
        assert(p2.drop_last() =~= class_text(c2.drop_last()));
        lemma_class_text_injective(c1.drop_last(), c2.drop_last());
        assert(c1 =~= c1.drop_last().push(c1.last()));
        assert(c2 =~= c2.drop_last().push(c2.last()));
    } else {
        assert(c2.len() == 1) by {
            if c2.len() >= 2 {
                assert(p2.len() >= 1);
            }
        }
        assert(c1 =~= c2);
    }
}

/// The text of a list of classes holds digits, commas and bars only.
proof fn lemma_classes_text_chars(cs: Seq<Seq<usize>>)
    ensures
        forall|k: int| 0 <= k < classes_text(cs).len() ==> #[trigger] classes_text(cs)[k] != 'a',
    decreases cs.len(),
{
    if cs.len() > 0 {
        lemma_classes_text_chars(cs.drop_last());
        lemma_class_text_chars(cs.last());
        let a = classes_text(cs.drop_last());
        let b = class_text(cs.last());
        assert forall|k: int| 0 <= k < classes_text(cs).len() implies #[trigger] classes_text(cs)[k] != 'a' by {
            if k < a.len() {
                assert(classes_text(cs)[k] == a[k]);
            } else if k < a.len() + b.len() {
                assert(classes_text(cs)[k] == b[k - a.len()]);
                assert(is_digit(b[k - a.len()]) || b[k - a.len()] == ',');
            }
        }
    }
}

/// Distinct lists of non-empty classes have distinct texts.
proof fn lemma_classes_text_injective(cs1: Seq<Seq<usize>>, cs2: Seq<Seq<usize>>)
    requires
        forall|c: int| 0 <= c < cs1.len() ==> (#[trigger] cs1[c]).len() >= 1,
        forall|c: int| 0 <= c < cs2.len() ==> (#[trigger] cs2[c]).len() >= 1,
        classes_text(cs1) == classes_text(cs2),
    ensures
        cs1 == cs2,
    decreases cs1.len(),
{
    if cs1.len() == 0 {
        if cs2.len() > 0 {
            lemma_class_text_chars(cs2.last());
            assert(classes_text(cs2).len() >= 1);
        }
        assert(cs1 =~= cs2);
    } else if cs2.len() == 0 {
        lemma_class_text_chars(cs1.last());
        assert(classes_text(cs1).len() >= 1);
    } else {
        let p1 = classes_text(cs1.drop_last());
        let p2 = classes_text(cs2.drop_last());
        let x1 = class_text(cs1.last());
        let x2 = class_text(cs2.last());
        lemma_class_text_chars(cs1.last());
        lemma_class_text_chars(cs2.last());
        assert forall|k: int| 0 <= k < x1.len() implies #[trigger] x1[k] != '|' by {
            assert(is_digit(x1[k]) || x1[k] == ',');
        }
        assert forall|k: int| 0 <= k < x2.len() implies #[trigger] x2[k] != '|' by {
            assert(is_digit(x2[k]) || x2[k] == ',');
        }
        assert(classes_text(cs1) =~= (p1 + x1).push('|'));
        assert(classes_text(cs2) =~= (p2 + x2).push('|'));
        assert(p1 + x1 =~= (p1 + x1).push('|').drop_last());
        assert(p2 + x2 =~= (p2 + x2).push('|').drop_last());
        if cs1.len() >= 2 {
            assert(p1.last() == '|');
        }
        if cs2.len() >= 2 {
            assert(p2.last() == '|');
        }
        assert(cs1.drop_last().len() == 0 ==> p1.len() == 0);
        assert(cs2.drop_last().len() == 0 ==> p2.len() == 0);
        lemma_split_unique(p1, x1, p2, x2, '|');
        assert(cs1.last().len() >= 1);
        assert(cs2.last().len() >= 1);
        lemma_class_text_injective(cs1.last(), cs2.last());
        assert forall|c: int| 0 <= c < cs1.drop_last().len() implies (#[trigger] cs1.drop_last()[c]).len() >= 1 by {
            assert(cs1.drop_last()[c] == cs1[c]);
        }
        assert forall|c: int| 0 <= c < cs2.drop_last().len() implies (#[trigger] cs2.drop_last()[c]).len() >= 1 by {
            assert(cs2.drop_last()[c] == cs2[c]);
        }
        lemma_classes_text_injective(cs1.drop_last(), cs2.drop_last());
        assert(cs1 =~= cs1.drop_last().push(cs1.last()));
        assert(cs2 =~= cs2.drop_last().push(cs2.last()));
    }
}

/// Law: two tuples get the same pattern name exactly when they have the same
/// equality pattern.
pub proof fn law_pattern_name_iff_same_pattern(t1: Seq<i64>, t2: Seq<i64>)
    requires
        t1.len() <= usize::MAX,
        t2.len() <= usize::MAX,
    ensures
        pattern_name(t1) == pattern_name(t2) <==> classes(t1) == classes(t2),
{
    lemma_classes_shape(t1);
    lemma_classes_shape(t2);
    if classes(t1) == classes(t2) {
        assert(pruned(t1).len() == pruned(t2).len());
    }
    if pattern_name(t1) == pattern_name(t2) {
        let c1 = classes_text(classes(t1));
        let c2 = classes_text(classes(t2));
        let p1 = seq!['|'] + c1 + seq!['a'];
        let p2 = seq!['|'] + c2 + seq!['a'];
        let x1 = int_text(pruned(t1).len() as int);
        let x2 = int_text(pruned(t2).len() as int);
        lemma_int_text_digits(pruned(t1).len() as int);
        lemma_int_text_digits(pruned(t2).len() as int);
        assert(pattern_name(t1) =~= p1 + x1);
        assert(pattern_name(t2) =~= p2 + x2);
        assert forall|k: int| 0 <= k < x1.len() implies #[trigger] x1[k] != 'a' by {
            assert(is_digit(x1[k]));
        }
        assert forall|k: int| 0 <= k < x2.len() implies #[trigger] x2[k] != 'a' by {
            assert(is_digit(x2[k]));
        }
        assert(p1.last() == 'a');
        assert(p2.last() == 'a');
        lemma_split_unique(p1, x1, p2, x2, 'a');
        assert(c1 =~= p1.subrange(1, p1.len() - 1));
        assert(c2 =~= p2.subrange(1, p2.len() - 1));
        lemma_classes_text_injective(classes(t1), classes(t2));
    }
}

} // verus!

