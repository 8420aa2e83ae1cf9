//! Terms and quantifier-free formulas over a signature of operations.

use vstd::prelude::*;

use crate::first_order::models::Model;
use crate::first_order::relops::{find_operation, Operation};
use crate::strs::{
    dec_digits, lemma_seq_lt_irrefl, lemma_seq_lt_total, lemma_seq_lt_trans, push_char, push_int, push_str,
    seq_lt, str_lt,
};
use crate::util::{cartesian_product, copy_tuple, is_tuple_over, lemma_tuple_deep_view, rows_contain};
use crate::util::lemma_push_to_set;
use crate::parser::{ints_joined, list_text};

verus! {

/// The subscript character of a decimal digit.
pub open spec fn sub_char(d: nat) -> char {
    ((0x2080 + d) as u32) as char
}

/// Subscript decimal text of an integer (with a subscript minus when negative).
pub open spec fn subscript_text(n: int) -> Seq<char> {
    let mag: nat = if n < 0 { (-n) as nat } else { n as nat };
    let ds = dec_digits(mag).map_values(|d: nat| sub_char(d));
    if n < 0 { seq!['\u{208B}'] + ds } else { ds }
}

/// Name of the `i`-th canonical variable: `x` followed by the subscript of `i`.
pub open spec fn var_name(i: int) -> Seq<char> {
    seq!['x'] + subscript_text(i)
}

/// Distinct numbers have distinct decimal digits.
pub proof fn lemma_dec_digits_injective(n: nat, m: nat)
    requires
        dec_digits(n) == dec_digits(m),
    ensures
        n == m,
    decreases n,
{
    if n >= 10 && m >= 10 {
        assert(dec_digits(n).drop_last() =~= dec_digits(n / 10));
        assert(dec_digits(m).drop_last() =~= dec_digits(m / 10));
        lemma_dec_digits_injective(n / 10, m / 10);
        assert(dec_digits(n).last() == n % 10);
        assert(dec_digits(m).last() == m % 10);
    } else if n >= 10 {
        lemma_dec_digits_len(n / 10);
        assert(dec_digits(n).len() >= 2);
    } else if m >= 10 {
        lemma_dec_digits_len(m / 10);
        assert(dec_digits(m).len() >= 2);
    } else {
        assert(dec_digits(n)[0] == n);
        assert(dec_digits(m)[0] == m);
    }
}

/// Every number has at least one digit, each below ten.
pub proof fn lemma_dec_digits_len(n: nat)
    ensures
        dec_digits(n).len() >= 1,
        forall|k: int| 0 <= k < dec_digits(n).len() ==> #[trigger] dec_digits(n)[k] < 10,
    decreases n,
{
    if n >= 10 {
        lemma_dec_digits_len(n / 10);
        assert forall|k: int| 0 <= k < dec_digits(n).len() implies #[trigger] dec_digits(n)[k] < 10 by {
            if k < dec_digits(n).len() - 1 {
                assert(dec_digits(n)[k] == dec_digits(n / 10)[k]);
            }
        }
    }
}

/// Canonical variables of distinct non-negative indices have distinct names.
pub proof fn lemma_var_name_injective(i: int, j: int)
    requires
        0 <= i,
        0 <= j,
        var_name(i) == var_name(j),
    ensures
        i == j,
{
    let di = dec_digits(i as nat);
    let dj = dec_digits(j as nat);
    lemma_dec_digits_len(i as nat);
    lemma_dec_digits_len(j as nat);
    let si = di.map_values(|d: nat| sub_char(d));
    let sj = dj.map_values(|d: nat| sub_char(d));
    assert(var_name(i).drop_first() =~= si);
    assert(var_name(j).drop_first() =~= sj);
    assert(si.len() == sj.len());
    assert(di =~= dj) by {
        assert forall|k: int| 0 <= k < di.len() implies di[k] == dj[k] by {
            assert(si[k] == sj[k]);
            assert(di[k] < 10);
            assert(dj[k] < 10);
            assert(sub_char(di[k]) as u32 == 0x2080 + di[k]);
            assert(sub_char(dj[k]) as u32 == 0x2080 + dj[k]);
        }
    }
    lemma_dec_digits_injective(i as nat, j as nat);
}

fn sub_digit_char(d: u64) -> (c: char)
    requires
        d < 10,
    ensures
        c == sub_char(d as nat),
{
    let c = match d {
        0 => '\u{2080}',
        1 => '\u{2081}',
        2 => '\u{2082}',
        3 => '\u{2083}',
        4 => '\u{2084}',
        5 => '\u{2085}',
        6 => '\u{2086}',
        7 => '\u{2087}',
        8 => '\u{2088}',
        _ => '\u{2089}',
    };
    proof {
        assert(c == ((0x2080 + d) as u32) as char);
    }
    c
}

fn push_sub_digits(s: &mut String, n: u64)
    ensures
        final(s)@ == old(s)@ + dec_digits(n as nat).map_values(|d: nat| sub_char(d)),
    decreases n,
{
    if n >= 10 {
        push_sub_digits(s, n / 10);
    }
    let c = sub_digit_char(n % 10);
    push_char(s, c);
    proof {
        if n >= 10 {
            assert(dec_digits(n as nat) == dec_digits((n / 10) as nat).push((n % 10) as nat));
            assert(dec_digits(n as nat).map_values(|d: nat| sub_char(d)) =~= dec_digits(
                (n / 10) as nat,
            ).map_values(|d: nat| sub_char(d)).push(c));
        } else {
            assert(dec_digits(n as nat).map_values(|d: nat| sub_char(d)) =~= seq![c]);
        }
        assert(final(s)@ =~= old(s)@ + dec_digits(n as nat).map_values(|d: nat| sub_char(d)));
    }
}

/// Subscript decimal text of `n`.
pub fn subscript(n: i32) -> (r: String)
    ensures
        r@ == subscript_text(n as int),
{
    let mut s = String::new();
    if n < 0 {
        push_char(&mut s, '\u{208B}');
        let m: u64 = (-(n as i64)) as u64;
        push_sub_digits(&mut s, m);
        proof {
            assert(s@ =~= subscript_text(n as int));
        }
    } else {
        push_sub_digits(&mut s, n as u64);
        proof {
            assert(s@ =~= subscript_text(n as int));
        }
    }
    s
}

/// A first-order variable.
pub struct Variable {
    pub sym: String,
}

impl Variable {
    /// Variable named `sym`.
    pub fn new(sym: &str) -> (v: Self)
        ensures
            v.sym@ == sym@,
    {
        Variable { sym: sym.to_owned() }
    }

    /// The `i`-th canonical variable `x_i` (subscript digits).
    pub fn from_index(i: i32) -> (v: Self)
        ensures
            v.sym@ == var_name(i as int),
    {
        let mut s = String::new();
        push_char(&mut s, 'x');
        let sub = subscript(i);
        push_str(&mut s, sub.as_str());
        proof {
            assert(s@ =~= var_name(i as int));
        }
        Variable { sym: s }
    }

    /// A copy of the variable.
    pub fn copy(&self) -> (v: Self)
        ensures
            v.sym@ == self.sym@,
    {
        Variable { sym: self.sym.clone() }
    }
}

/// Names of a list of variables.
pub open spec fn names(vs: Seq<Variable>) -> Seq<Seq<char>> {
    vs.map_values(|v: Variable| v.sym@)
}

/// Names of an extended list.
pub proof fn lemma_names_push(vs: Seq<Variable>, v: Variable)
    ensures
        names(vs.push(v)) == names(vs).push(v.sym@),
        names(vs).len() == vs.len(),
{
    assert(names(vs.push(v)) =~= names(vs).push(v.sym@));
}

/// The set of names of a list of variables.
pub open spec fn name_set(vs: Seq<Variable>) -> Set<Seq<char>> {
    names(vs).to_set()
}

/// The variables `x_i` for the given indices.
pub fn variables(indices: &[i32]) -> (r: Vec<Variable>)
    ensures
        r.len() == indices.len(),
        forall|k: int| 0 <= k < indices.len() ==> (#[trigger] r@[k]).sym@ == var_name(indices@[k] as int),
{
    let mut r: Vec<Variable> = Vec::new();
    let mut i: usize = 0;
    while i < indices.len()
        invariant
            i <= indices.len(),
            r.len() == i,
            forall|k: int| 0 <= k < i ==> (#[trigger] r@[k]).sym@ == var_name(indices@[k] as int),
        decreases indices.len() - i,
    {
        r.push(Variable::from_index(indices[i]));
        i += 1;
    }
    r
}

/// Adds `v` to a duplicate-free list of variables unless a variable of that name is present.
pub fn add_var(out: &mut Vec<Variable>, v: &Variable)
    requires
        names(old(out)@).no_duplicates(),
    ensures
        names(final(out)@).no_duplicates(),
        name_set(final(out)@) == name_set(old(out)@).insert(v.sym@),
{
    let mut i: usize = 0;
    while i < out.len()
        invariant
            i <= out.len(),
            names(out@).no_duplicates(),
            forall|k: int| 0 <= k < i ==> (#[trigger] out@[k]).sym@ != v.sym@,
        decreases out.len() - i,
    {
        if out[i].sym == v.sym {
            proof {
                assert(names(out@)[i as int] == v.sym@);
                assert(name_set(out@).contains(v.sym@));
                assert(name_set(out@).insert(v.sym@) =~= name_set(out@));
            }
            return;
        }
        i += 1;
    }
    let ghost before = out@;
    let c = v.copy();
    out.push(c);
    proof {
        lemma_names_push(before, c);
        assert(names(out@) =~= names(before).push(v.sym@));
        assert(!names(before).contains(v.sym@)) by {
            if names(before).contains(v.sym@) {
                let k = choose|k: int| 0 <= k < names(before).len() && names(before)[k] == v.sym@;
                assert(names(before)[k] == before[k].sym@);
            }
        }
        lemma_push_to_set(names(before), v.sym@);
        assert(name_set(out@) == name_set(before).insert(v.sym@));
        assert(names(out@).no_duplicates()) by {
            assert forall|a: int, b: int| 0 <= a < names(out@).len() && 0 <= b < names(out@).len() && a != b
                implies names(out@)[a] != names(out@)[b] by {
                if a < before.len() && b < before.len() {
                    assert(names(out@)[a] == names(before)[a]);
                    assert(names(out@)[b] == names(before)[b]);
                } else if a < before.len() {
                    assert(names(out@)[a] == names(before)[a]);
                } else {
                    assert(names(out@)[b] == names(before)[b]);
                }
            }
        }
    }
}

/// Adds all variables of `vs` to `out`.
pub fn extend_vars(out: &mut Vec<Variable>, vs: &Vec<Variable>)
    requires
        names(old(out)@).no_duplicates(),
    ensures
        names(final(out)@).no_duplicates(),
        name_set(final(out)@) == name_set(old(out)@).union(name_set(vs@)),
{
    let ghost start = name_set(out@);
    let mut i: usize = 0;
    while i < vs.len()
        invariant
            i <= vs.len(),
            names(out@).no_duplicates(),
            name_set(out@) == start.union(name_set(vs@.take(i as int))),
        decreases vs.len() - i,
    {
        add_var(out, &vs[i]);
        proof {
            assert(vs@.take(i + 1) =~= vs@.take(i as int).push(vs@[i as int]));
            lemma_names_push(vs@.take(i as int), vs@[i as int]);
            lemma_push_to_set(names(vs@.take(i as int)), vs@[i as int].sym@);
            assert(name_set(out@) =~= start.union(name_set(vs@.take(i + 1))));
        }
        i += 1;
    }
    proof {
        assert(vs@.take(vs.len() as int) =~= vs@);
    }
}

/// Copy of a list of variables.
pub fn copy_vars(vs: &Vec<Variable>) -> (r: Vec<Variable>)
    ensures
        names(r@) == names(vs@),
{
    let mut r: Vec<Variable> = Vec::new();
    let mut i: usize = 0;
    while i < vs.len()
        invariant
            i <= vs.len(),
            names(r@) == names(vs@.take(i as int)),
        decreases vs.len() - i,
    {
        let ghost before = r@;
        let c = vs[i].copy();
        r.push(c);
        proof {
            assert(vs@.take(i + 1) =~= vs@.take(i as int).push(vs@[i as int]));
            lemma_names_push(vs@.take(i as int), vs@[i as int]);
            lemma_names_push(before, c);
            assert(names(r@) =~= names(vs@.take(i + 1)));
        }
        i += 1;
    }
    proof {
        assert(vs@.take(vs.len() as int) =~= vs@);
    }
    r
}

/// An operation symbol with its arity.
pub struct OpSym {
    pub op: String,
    pub arity: usize,
}

impl OpSym {
    /// Symbol `op` of the given arity.
    pub fn new(op: &str, arity: usize) -> (r: Self)
        ensures
            r.op@ == op@,
            r.arity == arity,
    {
        OpSym { op: op.to_owned(), arity }
    }
}

/// A first-order term.
pub enum Term {
    Variable(Variable),
    OpTerm { sym: OpSym, args: Vec<Term> },
}

/// Mathematical value of a term.
pub enum TermV {
    Var(Seq<char>),
    Op(Seq<char>, nat, Seq<TermV>),
}
pub open spec fn term_view(t: Term) -> TermV
    decreases t,
{
    match t {
        Term::Variable(v) => TermV::Var(v.sym@),
        Term::OpTerm { sym, args } => TermV::Op(sym.op@, sym.arity as nat, terms_view(args@)),
    }
}

pub open spec fn terms_view(s: Seq<Term>) -> Seq<TermV>
    decreases s,
{
    if s.len() == 0 {
        Seq::empty()
    } else {
        terms_view(s.drop_last()).push(term_view(s.last()))
    }
}

pub proof fn lemma_terms_view(s: Seq<Term>)
    ensures
        terms_view(s).len() == s.len(),
        forall|i: int| 0 <= i < s.len() ==> terms_view(s)[i] == term_view(#[trigger] s[i]),
    decreases s.len(),
{
    if s.len() > 0 {
        lemma_terms_view(s.drop_last());
        assert forall|i: int| 0 <= i < s.len() implies terms_view(s)[i] == term_view(#[trigger] s[i]) by {
            if i < s.len() - 1 {
                assert(s.drop_last()[i] == s[i]);
            }
        }
    }
}

pub fn term_eq(a: &Term, b: &Term) -> (r: bool)
    ensures
        r == (term_view(*a) == term_view(*b)),
    decreases a,
{
    match (a, b) {
        (Term::Variable(x), Term::Variable(y)) => x.sym == y.sym,
        (Term::OpTerm { sym: s1, args: a1 }, Term::OpTerm { sym: s2, args: a2 }) => {
            proof {
                lemma_terms_view(a1@);
                lemma_terms_view(a2@);
            }
            if s1.op != s2.op || s1.arity != s2.arity || a1.len() != a2.len() {
                proof {
                    if term_view(*a) == term_view(*b) {
                        assert(term_view(*a)->Op_2.len() == a1.len());
                    }
                }
                return false;
            }
            let mut i: usize = 0;
            #[verifier::loop_isolation(false)]
            while i < a1.len()
                invariant
                    i <= a1.len(),
                    a1.len() == a2.len(),
                    forall|j: int| 0 <= j < i ==> term_view(a1@[j]) == term_view(a2@[j]),
                decreases a1.len() - i,
            {
                proof {
                    lemma_terms_view(a1@);
                    lemma_terms_view(a2@);
                    assert(decreases_to!(a1 => a1[i as int]));
                }
                if !term_eq(&a1[i], &a2[i]) {
                    proof {
                        if term_view(*a) == term_view(*b) {
                            assert(term_view(*a)->Op_2 == terms_view(a1@));
                            assert(term_view(*a)->Op_2[i as int] == term_view(a1@[i as int]));
                            assert(term_view(*b)->Op_2[i as int] == term_view(a2@[i as int]));
                        }
                    }
                    return false;
                }
                i += 1;
            }
            proof {
                lemma_terms_view(a1@);
                lemma_terms_view(a2@);
                assert forall|j: int| 0 <= j < a1.len() implies terms_view(a1@)[j] == terms_view(a2@)[j] by {
                    assert(term_view(a1@[j]) == term_view(a2@[j]));
                }
                assert(terms_view(a1@) =~= terms_view(a2@));
            }
            true
        },
        _ => false,
    }
}

/// Variables occurring in a term.
pub open spec fn term_vars(t: TermV) -> Set<Seq<char>>
    decreases t,
{
    match t {
        TermV::Var(s) => set![s],
        TermV::Op(_, _, args) => terms_vars(args),
    }
}

/// Variables occurring in a list of terms.
pub open spec fn terms_vars(ts: Seq<TermV>) -> Set<Seq<char>>
    decreases ts,
{
    if ts.len() == 0 {
        Set::empty()
    } else {
        terms_vars(ts.drop_last()).union(term_vars(ts.last()))
    }
}

/// Nesting depth of operation symbols in a term.
pub open spec fn term_grade(t: TermV) -> nat
    decreases t,
{
    match t {
        TermV::Var(_) => 0,
        TermV::Op(_, _, args) => 1 + terms_grade(args),
    }
}

/// Largest grade in a list of terms (0 for the empty list).
pub open spec fn terms_grade(ts: Seq<TermV>) -> nat
    decreases ts,
{
    if ts.len() == 0 {
        0
    } else {
        let a = terms_grade(ts.drop_last());
        let b = term_grade(ts.last());
        if a >= b { a } else { b }
    }
}

/// Value bound to a variable name in an assignment (first binding wins).
pub open spec fn env_lookup(env: Seq<(Seq<char>, i64)>, name: Seq<char>) -> Option<i64>
    decreases env.len(),
{
    if env.len() == 0 {
        None
    } else if env[0].0 == name {
        Some(env[0].1)
    } else {
        env_lookup(env.drop_first(), name)
    }
}

/// Mathematical view of an assignment of values to variables.
pub open spec fn env_view(env: Seq<(Variable, i64)>) -> Seq<(Seq<char>, i64)> {
    env.map_values(|p: (Variable, i64)| (p.0.sym@, p.1))
}

/// First operation with the given name.
pub open spec fn first_op(ops: Seq<Operation>, name: Seq<char>) -> Option<Operation>
    decreases ops.len(),
{
    if ops.len() == 0 {
        None
    } else if ops[0].sym@ == name {
        Some(ops[0])
    } else {
        first_op(ops.drop_first(), name)
    }
}

/// All operations are well formed.
pub open spec fn ops_wf(ops: Seq<Operation>) -> bool {
    forall|i: int| 0 <= i < ops.len() ==> (#[trigger] ops[i]).wf()
}

/// Value of a term under an assignment (`None` when undefined).
pub open spec fn eval_term(t: TermV, ops: Seq<Operation>, env: Seq<(Seq<char>, i64)>) -> Option<i64>
    decreases t,
{
    match t {
        TermV::Var(s) => env_lookup(env, s),
        TermV::Op(name, _, args) => match eval_terms(args, ops, env) {
            Some(vals) => match first_op(ops, name) {
                Some(op) => op.spec_call(vals),
                None => None,
            },
            None => None,
        },
    }
}

/// Message of the first failure met in evaluating `t`: an unbound variable, a
/// missing operation, or an operation undefined on the argument values.
pub open spec fn eval_error(t: TermV, ops: Seq<Operation>, env: Seq<(Seq<char>, i64)>) -> Seq<char>
    decreases t,
{
    match t {
        TermV::Var(s) => "Variable "@ + s + " not bound"@,
        TermV::Op(name, _, args) => match eval_terms(args, ops, env) {
            None => args_error(args, ops, env),
            Some(vals) => match first_op(ops, name) {
                None => "Operation "@ + name + " not found"@,
                Some(_) => "Operation "@ + name + " undefined for args "@ + list_text(vals),
            },
        },
    }
}

/// Message of the first argument, in order, that has no value.
pub open spec fn args_error(ts: Seq<TermV>, ops: Seq<Operation>, env: Seq<(Seq<char>, i64)>) -> Seq<char>
    decreases ts,
{
    if ts.len() == 0 {
        Seq::empty()
    } else if eval_terms(ts.drop_last(), ops, env) is None {
        args_error(ts.drop_last(), ops, env)
    } else {
        eval_error(ts.last(), ops, env)
    }
}

/// Values of a list of terms (`None` when one is undefined).
pub open spec fn eval_terms(ts: Seq<TermV>, ops: Seq<Operation>, env: Seq<(Seq<char>, i64)>) -> Option<Seq<i64>>
    decreases ts,
{
    if ts.len() == 0 {
        Some(Seq::empty())
    } else {
        match (eval_terms(ts.drop_last(), ops, env), eval_term(ts.last(), ops, env)) {
            (Some(vs), Some(v)) => Some(vs.push(v)),
            _ => None,
        }
    }
}

/// Lemma: `first_op` agrees with the index found by `find_operation`.
pub proof fn lemma_first_op(ops: Seq<Operation>, name: Seq<char>)
    ensures
        (forall|j: int| 0 <= j < ops.len() ==> (#[trigger] ops[j]).sym@ != name) ==> first_op(ops, name) is None,
        forall|i: int|
            0 <= i < ops.len() && ops[i].sym@ == name && (forall|j: int| 0 <= j < i ==> (#[trigger] ops[j]).sym@ != name)
                ==> first_op(ops, name) == Some(#[trigger] ops[i]),
    decreases ops.len(),
{
    if ops.len() > 0 {
        lemma_first_op(ops.drop_first(), name);
        assert forall|i: int|
            0 <= i < ops.len() && ops[i].sym@ == name && (forall|j: int| 0 <= j < i ==> (#[trigger] ops[j]).sym@ != name)
                implies first_op(ops, name) == Some(#[trigger] ops[i]) by {
            if i > 0 {
                assert(ops[0].sym@ != name);
                assert(ops.drop_first()[i - 1] == ops[i]);
                assert forall|j: int| 0 <= j < i - 1 implies (#[trigger] ops.drop_first()[j]).sym@ != name by {
                    assert(ops.drop_first()[j] == ops[j + 1]);
                }
            }
        }
        if forall|j: int| 0 <= j < ops.len() ==> (#[trigger] ops[j]).sym@ != name {
            assert(ops[0].sym@ != name);
            assert forall|j: int| 0 <= j < ops.drop_first().len() implies (#[trigger] ops.drop_first()[j]).sym@ != name by {
                assert(ops.drop_first()[j] == ops[j + 1]);
            }
        }
    }
}

/// Lemma: looking up an assignment entry by position.
pub proof fn lemma_env_lookup(env: Seq<(Seq<char>, i64)>, name: Seq<char>)
    ensures
        (forall|j: int| 0 <= j < env.len() ==> (#[trigger] env[j]).0 != name) ==> env_lookup(env, name) is None,
        forall|i: int|
            0 <= i < env.len() && env[i].0 == name && (forall|j: int| 0 <= j < i ==> (#[trigger] env[j]).0 != name)
                ==> env_lookup(env, name) == Some((#[trigger] env[i]).1),
    decreases env.len(),
{
    if env.len() > 0 {
        lemma_env_lookup(env.drop_first(), name);
        assert forall|i: int|
            0 <= i < env.len() && env[i].0 == name && (forall|j: int| 0 <= j < i ==> (#[trigger] env[j]).0 != name)
                implies env_lookup(env, name) == Some((#[trigger] env[i]).1) by {
            if i > 0 {
                assert(env[0].0 != name);
                assert(env.drop_first()[i - 1] == env[i]);
                assert forall|j: int| 0 <= j < i - 1 implies (#[trigger] env.drop_first()[j]).0 != name by {
                    assert(env.drop_first()[j] == env[j + 1]);
                }
            }
        }
        if forall|j: int| 0 <= j < env.len() ==> (#[trigger] env[j]).0 != name {
            assert(env[0].0 != name);
            assert forall|j: int| 0 <= j < env.drop_first().len() implies (#[trigger] env.drop_first()[j]).0 != name by {
                assert(env.drop_first()[j] == env[j + 1]);
            }
        }
    }
}

/// Value bound to `name` in an assignment.
pub fn lookup_var(vector: &Vec<(Variable, i64)>, name: &String) -> (r: Option<i64>)
    ensures
        r == env_lookup(env_view(vector@), name@),
{
    proof {
        lemma_env_lookup(env_view(vector@), name@);
    }
    let mut i: usize = 0;
    while i < vector.len()
        invariant
            i <= vector.len(),
            forall|j: int| 0 <= j < i ==> (#[trigger] env_view(vector@)[j]).0 != name@,
        decreases vector.len() - i,
    {
        proof {
            lemma_env_lookup(env_view(vector@), name@);
        }
        if vector[i].0.sym == *name {
            proof {
                assert(env_view(vector@)[i as int] == (vector@[i as int].0.sym@, vector@[i as int].1));
            }
            return Some(vector[i].1);
        }
        i += 1;
    }
    proof {
        lemma_env_lookup(env_view(vector@), name@);
    }
    None
}

/// Appends `[a, b, ...]` in decimal.
pub fn push_list(s: &mut String, vals: &Vec<i64>)
    ensures
        final(s)@ == old(s)@ + list_text(vals@),
{
    let ghost start = old(s)@;
    push_char(s, '[');
    let mut i: usize = 0;
    proof {
        assert(vals@.take(0) =~= Seq::<i64>::empty());
        assert(s@ =~= start + seq!['['] + ints_joined(vals@.take(0)));
    }
    while i < vals.len()
        invariant
            i <= vals.len(),
            s@ == start + seq!['['] + ints_joined(vals@.take(i as int)),
        decreases vals.len() - i,
    {
        if i > 0 {
            push_str(s, ", ");
        }
        push_int(s, vals[i]);
        proof {
            let t1 = vals@.take(i + 1);
            assert(t1.drop_last() =~= vals@.take(i as int));
            assert(t1.last() == vals@[i as int]);
            if i == 0 {
                assert(t1.len() == 1);
                assert(t1[0] == vals@[0]);
            }
            assert(s@ =~= start + seq!['['] + ints_joined(t1));
        }
        i += 1;
    }
    push_char(s, ']');
    proof {
        assert(vals@.take(vals.len() as int) =~= vals@);
        assert(s@ =~= start + list_text(vals@));
    }
}

impl Term {
    /// Variables occurring in the term, each once.
    pub fn free_vars(&self) -> (r: Vec<Variable>)
        ensures
            names(r@).no_duplicates(),
            name_set(r@) == term_vars(term_view(*self)),
        decreases self,
    {
        match self {
            Term::Variable(v) => {
                let mut out: Vec<Variable> = Vec::new();
                let c = v.copy();
                out.push(c);
                proof {
                    assert(out@[0] == c);
                    assert(names(out@).len() == 1);
                    assert(names(out@)[0] == out@[0].sym@);
                    assert(names(out@) =~= seq![v.sym@]);
                    assert(name_set(out@) =~= set![v.sym@]);
                }
                out
            },
            Term::OpTerm { args, .. } => {
                let mut out: Vec<Variable> = Vec::new();
                let mut i: usize = 0;
                proof {
                    assert(names(out@) =~= Seq::<Seq<char>>::empty());
                    assert(terms_view(args@.take(0)) =~= Seq::<TermV>::empty());
                    assert(name_set(out@) =~= Set::<Seq<char>>::empty());
                }
                #[verifier::loop_isolation(false)]
                while i < args.len()
                    invariant
                        i <= args.len(),
                        names(out@).no_duplicates(),
                        name_set(out@) == terms_vars(terms_view(args@.take(i as int))),
                    decreases args.len() - i,
                {
                    proof {
                        assert(decreases_to!(args => args[i as int]));
                    }
                    let fv = args[i].free_vars();
                    extend_vars(&mut out, &fv);
                    proof {
                        lemma_terms_view_step(args@, i as int);
                    }
                    i += 1;
                }
                proof {
                    assert(args@.take(args.len() as int) =~= args@);
                }
                out
            },
        }
    }

    /// Nesting depth of operation symbols.
    pub fn grade(&self) -> (r: usize)
        requires
            term_grade(term_view(*self)) < usize::MAX,
        ensures
            r == term_grade(term_view(*self)),
        decreases self,
    {
        match self {
            Term::Variable(_) => 0,
            Term::OpTerm { args, .. } => {
                let mut m: usize = 0;
                let mut i: usize = 0;
                proof {
                    assert(terms_view(args@.take(0)) =~= Seq::<TermV>::empty());
                }
                #[verifier::loop_isolation(false)]
                while i < args.len()
                    invariant
                        i <= args.len(),
                        m == terms_grade(terms_view(args@.take(i as int))),
                        m <= terms_grade(terms_view(args@)),
                    decreases args.len() - i,
                {
                    proof {
                        assert(decreases_to!(args => args[i as int]));
                        lemma_terms_view(args@);
                        lemma_terms_grade_le(terms_view(args@), i as int);
                        assert(terms_view(args@)[i as int] == term_view(args@[i as int]));
                    }
                    let g = args[i].grade();
                    if g > m {
                        m = g;
                    }
                    proof {
                        lemma_terms_view_step(args@, i as int);
                        lemma_terms_view_take(args@, i + 1);
                        if i + 1 < args.len() {
                            lemma_terms_grade_le(terms_view(args@), i + 1);
                        } else {
                            assert(args@.take(i + 1) =~= args@);
                        }
                    }
                    i += 1;
                }
                proof {
                    assert(args@.take(args.len() as int) =~= args@);
                }
                m + 1
            },
        }
    }

    /// Value of the term; an error when a variable is unbound, an operation is
    /// missing, or an operation is undefined on the argument values.
    pub fn evaluate(&self, operations: &Vec<Operation>, vector: &Vec<(Variable, i64)>) -> (r: Result<i64, String>)
        requires
            ops_wf(operations@),
        ensures
            match r {
                Ok(v) => eval_term(term_view(*self), operations@, env_view(vector@)) == Some(v),
                Err(e) => eval_term(term_view(*self), operations@, env_view(vector@)) is None && e@ == eval_error(
                    term_view(*self),
                    operations@,
                    env_view(vector@),
                ),
            },
        decreases self,
    {
        match self {
            Term::Variable(v) => match lookup_var(vector, &v.sym) {
                Some(x) => Ok(x),
                None => {
                    let mut msg = String::new();
                    push_str(&mut msg, "Variable ");
                    push_str(&mut msg, v.sym.as_str());
                    push_str(&mut msg, " not bound");
                    Err(msg)
                },
            },
            Term::OpTerm { sym, args } => {
                let mut vals: Vec<i64> = Vec::new();
                let mut i: usize = 0;
                proof {
                    assert(terms_view(args@.take(0)) =~= Seq::<TermV>::empty());
                }
                #[verifier::loop_isolation(false)]
                while i < args.len()
                    invariant
                        i <= args.len(),
                        eval_terms(terms_view(args@.take(i as int)), operations@, env_view(vector@)) == Some(vals@),
                    decreases args.len() - i,
                {
                    proof {
                        assert(decreases_to!(args => args[i as int]));
                        lemma_terms_view_step(args@, i as int);
                    }
                    match args[i].evaluate(operations, vector) {
                        Ok(x) => {
                            vals.push(x);
                        },
                        Err(e) => {
                            proof {
                                lemma_terms_view_take(args@, i + 1);
                                let pre = terms_view(args@.take(i as int)).push(term_view(args@[i as int]));
                                assert(eval_term(pre.last(), operations@, env_view(vector@)) is None);
                                assert(eval_terms(pre, operations@, env_view(vector@)) is None);
                                lemma_terms_view_step(args@, i as int);
                                assert(terms_view(args@.take(i + 1)) == pre);
                                assert(terms_view(args@).take(i + 1) == pre);
                                lemma_terms_view(args@);
                                lemma_eval_terms_prefix(terms_view(args@), i as int + 1, operations@, env_view(vector@));
                                lemma_terms_view_take(args@, i as int);
                                lemma_args_error(terms_view(args@), i as int, operations@, env_view(vector@));
                            }
                            return Err(e);
                        },
                    }
                    i += 1;
                }
                proof {
                    assert(args@.take(args.len() as int) =~= args@);
                }
                match find_operation(operations, &sym.op) {
                    None => {
                        proof {
                            lemma_first_op(operations@, sym.op@);
                        }
                        let mut msg = String::new();
                        push_str(&mut msg, "Operation ");
                        push_str(&mut msg, sym.op.as_str());
                        push_str(&mut msg, " not found");
                        Err(msg)
                    },
                    Some(k) => {
                        proof {
                            lemma_first_op(operations@, sym.op@);
                        }
                        match operations[k].call(vals.as_slice()) {
                            Some(x) => Ok(x),
                            None => {
                                let mut msg = String::new();
                                push_str(&mut msg, "Operation ");
                                push_str(&mut msg, sym.op.as_str());
                                push_str(&mut msg, " undefined for args ");
                                push_list(&mut msg, &vals);
                                Err(msg)
                            },
                        }
                    },
                }
            },
        }
    }
}

/// The largest grade bounds each member's grade.
pub proof fn lemma_terms_grade_le(ts: Seq<TermV>, i: int)
    requires
        0 <= i < ts.len(),
    ensures
        term_grade(ts[i]) <= terms_grade(ts),
        terms_grade(ts.take(i)) <= terms_grade(ts),
    decreases ts.len(),
{
    if i < ts.len() - 1 {
        lemma_terms_grade_le(ts.drop_last(), i);
        assert(ts.drop_last()[i] == ts[i]);
        assert(ts.drop_last().take(i) =~= ts.take(i));
    } else {
        assert(ts.drop_last() =~= ts.take(i));
    }
}

/// One more term in a prefix adds its view at the end.
pub proof fn lemma_terms_view_step(s: Seq<Term>, i: int)
    requires
        0 <= i < s.len(),
    ensures
        terms_view(s.take(i + 1)) == terms_view(s.take(i)).push(term_view(s[i])),
        terms_view(s.take(i)).push(term_view(s[i])).drop_last() == terms_view(s.take(i)),
        terms_view(s.take(i)).push(term_view(s[i])).last() == term_view(s[i]),
        terms_view(s.take(i)).push(term_view(s[i])).len() > 0,
{
    assert(s.take(i + 1).drop_last() =~= s.take(i));
    assert(s.take(i + 1).last() == s[i]);
    assert(terms_view(s.take(i)).push(term_view(s[i])).drop_last() =~= terms_view(s.take(i)));
}

/// The view of a prefix is the prefix of the view.
pub proof fn lemma_terms_view_take(s: Seq<Term>, n: int)
    requires
        0 <= n <= s.len(),
    ensures
        terms_view(s.take(n)) == terms_view(s).take(n),
{
    lemma_terms_view(s);
    lemma_terms_view(s.take(n));
    assert forall|k: int| 0 <= k < n implies terms_view(s.take(n))[k] == terms_view(s).take(n)[k] by {
        assert(s.take(n)[k] == s[k]);
    }
    assert(terms_view(s.take(n)) =~= terms_view(s).take(n));
}

/// The first argument without a value gives the message of the list.
pub proof fn lemma_args_error(ts: Seq<TermV>, i: int, ops: Seq<Operation>, env: Seq<(Seq<char>, i64)>)
    requires
        0 <= i < ts.len(),
        eval_terms(ts.take(i), ops, env) is Some,
        eval_term(ts[i], ops, env) is None,
    ensures
        eval_terms(ts, ops, env) is None,
        args_error(ts, ops, env) == eval_error(ts[i], ops, env),
    decreases ts.len(),
{
    assert(ts.take(i + 1).drop_last() =~= ts.take(i));
    assert(ts.take(i + 1).last() == ts[i]);
    assert(eval_terms(ts.take(i + 1), ops, env) is None);
    lemma_eval_terms_prefix(ts, i + 1, ops, env);
    if ts.len() == i + 1 {
        assert(ts.drop_last() =~= ts.take(i));
    } else {
        let d = ts.drop_last();
        assert(d.take(i) =~= ts.take(i));
        assert(d[i] == ts[i]);
        lemma_args_error(d, i, ops, env);
    }
}

/// If a prefix of the list has an undefined term, so does the list.
pub proof fn lemma_eval_terms_prefix(ts: Seq<TermV>, n: int, ops: Seq<Operation>, env: Seq<(Seq<char>, i64)>)
    requires
        0 <= n <= ts.len(),
        eval_terms(ts.take(n), ops, env) is None,
    ensures
        eval_terms(ts, ops, env) is None,
    decreases ts.len(),
{
    if n < ts.len() {
        assert(ts.drop_last().take(n) =~= ts.take(n));
        lemma_eval_terms_prefix(ts.drop_last(), n, ops, env);
    } else {
        assert(ts.take(n) =~= ts);
    }
}

/// Deep copy of a term.
pub fn copy_term(t: &Term) -> (r: Term)
    ensures
        term_view(r) == term_view(*t),
    decreases t,
{
    match t {
        Term::Variable(v) => Term::Variable(v.copy()),
        Term::OpTerm { sym, args } => {
            let mut out: Vec<Term> = Vec::new();
            let mut i: usize = 0;
            proof {
                assert(terms_view(out@) =~= terms_view(args@.take(0)));
            }
            #[verifier::loop_isolation(false)]
            while i < args.len()
                invariant
                    i <= args.len(),
                    terms_view(out@) == terms_view(args@.take(i as int)),
                decreases args.len() - i,
            {
                proof {
                    assert(decreases_to!(args => args[i as int]));
                }
                let c = copy_term(&args[i]);
                let ghost before = out@;
                out.push(c);
                proof {
                    lemma_terms_view_step(args@, i as int);
                    assert(out@.drop_last() =~= before);
                    assert(out@.last() == c);
                }
                i += 1;
            }
            proof {
                assert(args@.take(args.len() as int) =~= args@);
            }
            Term::OpTerm { sym: OpSym { op: sym.op.clone(), arity: sym.arity }, args: out }
        },
    }
}

/// A quantifier-free formula.
pub enum Formula {
    True(Vec<Variable>),
    False(Vec<Variable>),
    Eq(Term, Term),
    Neg(Box<Formula>),
    And(Vec<Formula>),
    Or(Vec<Formula>),
}

/// Mathematical value of a formula; the variables of `True`/`False` form a set.
pub enum FormulaV {
    True(Set<Seq<char>>),
    False(Set<Seq<char>>),
    Eq(TermV, TermV),
    Neg(Box<FormulaV>),
    And(Seq<FormulaV>),
    Or(Seq<FormulaV>),
}

/// View of a formula.
pub open spec fn formula_view(f: Formula) -> FormulaV
    decreases f,
{
    match f {
        Formula::True(v) => FormulaV::True(name_set(v@)),
        Formula::False(v) => FormulaV::False(name_set(v@)),
        Formula::Eq(a, b) => FormulaV::Eq(term_view(a), term_view(b)),
        Formula::Neg(g) => FormulaV::Neg(Box::new(formula_view(*g))),
        Formula::And(fs) => FormulaV::And(formulas_view(fs@)),
        Formula::Or(fs) => FormulaV::Or(formulas_view(fs@)),
    }
}

/// View of a list of formulas.
pub open spec fn formulas_view(s: Seq<Formula>) -> Seq<FormulaV>
    decreases s,
{
    if s.len() == 0 {
        Seq::empty()
    } else {
        formulas_view(s.drop_last()).push(formula_view(s.last()))
    }
}

pub proof fn lemma_formulas_view(s: Seq<Formula>)
    ensures
        formulas_view(s).len() == s.len(),
        forall|i: int| 0 <= i < s.len() ==> formulas_view(s)[i] == formula_view(#[trigger] s[i]),
    decreases s.len(),
{
    if s.len() > 0 {
        lemma_formulas_view(s.drop_last());
        assert forall|i: int| 0 <= i < s.len() implies formulas_view(s)[i] == formula_view(#[trigger] s[i]) by {
            if i < s.len() - 1 {
                assert(s.drop_last()[i] == s[i]);
            }
        }
    }
}

pub proof fn lemma_formulas_view_step(s: Seq<Formula>, i: int)
    requires
        0 <= i < s.len(),
    ensures
        formulas_view(s.take(i + 1)) == formulas_view(s.take(i)).push(formula_view(s[i])),
{
    assert(s.take(i + 1).drop_last() =~= s.take(i));
    assert(s.take(i + 1).last() == s[i]);
}

/// Value of a term, with an undefined value read as `i64::MIN`.
pub open spec fn term_value(t: TermV, ops: Seq<Operation>, env: Seq<(Seq<char>, i64)>) -> i64 {
    match eval_term(t, ops, env) {
        Some(v) => v,
        None => i64::MIN,
    }
}

/// Truth of a formula under an assignment.
pub open spec fn sat(f: FormulaV, ops: Seq<Operation>, env: Seq<(Seq<char>, i64)>) -> bool
    decreases f,
{
    match f {
        FormulaV::True(_) => true,
        FormulaV::False(_) => false,
        FormulaV::Eq(a, b) => term_value(a, ops, env) == term_value(b, ops, env),
        FormulaV::Neg(g) => !sat(*g, ops, env),
        FormulaV::And(fs) => all_sat(fs, ops, env),
        FormulaV::Or(fs) => any_sat(fs, ops, env),
    }
}

/// Every formula of the list holds.
pub open spec fn all_sat(fs: Seq<FormulaV>, ops: Seq<Operation>, env: Seq<(Seq<char>, i64)>) -> bool
    decreases fs,
{
    if fs.len() == 0 {
        true
    } else {
        all_sat(fs.drop_last(), ops, env) && sat(fs.last(), ops, env)
    }
}

/// Some formula of the list holds.
pub open spec fn any_sat(fs: Seq<FormulaV>, ops: Seq<Operation>, env: Seq<(Seq<char>, i64)>) -> bool
    decreases fs,
{
    if fs.len() == 0 {
        false
    } else {
        any_sat(fs.drop_last(), ops, env) || sat(fs.last(), ops, env)
    }
}

pub proof fn lemma_all_any_sat(fs: Seq<FormulaV>, ops: Seq<Operation>, env: Seq<(Seq<char>, i64)>)
    ensures
        all_sat(fs, ops, env) <==> forall|i: int| 0 <= i < fs.len() ==> sat(#[trigger] fs[i], ops, env),
        any_sat(fs, ops, env) <==> exists|i: int| 0 <= i < fs.len() && sat(#[trigger] fs[i], ops, env),
    decreases fs.len(),
{
    if fs.len() > 0 {
        let d = fs.drop_last();
        lemma_all_any_sat(d, ops, env);
        assert forall|i: int| 0 <= i < d.len() implies d[i] == fs[i] by {}
        if all_sat(fs, ops, env) {
            assert forall|i: int| 0 <= i < fs.len() implies sat(#[trigger] fs[i], ops, env) by {
                if i < d.len() {
                    assert(d[i] == fs[i]);
                }
            }
        }
        if forall|i: int| 0 <= i < fs.len() ==> sat(#[trigger] fs[i], ops, env) {
            assert forall|i: int| 0 <= i < d.len() implies sat(#[trigger] d[i], ops, env) by {
                assert(d[i] == fs[i]);
            }
            assert(sat(fs[fs.len() - 1], ops, env));
        }
        if any_sat(fs, ops, env) {
            if sat(fs.last(), ops, env) {
                assert(sat(fs[fs.len() - 1], ops, env));
            } else {
                let i = choose|i: int| 0 <= i < d.len() && sat(#[trigger] d[i], ops, env);
                assert(d[i] == fs[i]);
            }
        }
        if exists|i: int| 0 <= i < fs.len() && sat(#[trigger] fs[i], ops, env) {
            let i = choose|i: int| 0 <= i < fs.len() && sat(#[trigger] fs[i], ops, env);
            if i < d.len() {
                assert(d[i] == fs[i]);
            }
        }
    }
}

/// Variables of a formula.
pub open spec fn formula_vars(f: FormulaV) -> Set<Seq<char>>
    decreases f,
{
    match f {
        FormulaV::True(v) => v,
        FormulaV::False(v) => v,
        FormulaV::Eq(a, b) => term_vars(a).union(term_vars(b)),
        FormulaV::Neg(g) => formula_vars(*g),
        FormulaV::And(fs) => formulas_vars(fs),
        FormulaV::Or(fs) => formulas_vars(fs),
    }
}

/// Variables of a list of formulas.
pub open spec fn formulas_vars(fs: Seq<FormulaV>) -> Set<Seq<char>>
    decreases fs,
{
    if fs.len() == 0 {
        Set::empty()
    } else {
        formulas_vars(fs.drop_last()).union(formula_vars(fs.last()))
    }
}

/// Number of nodes of a formula.
pub open spec fn formula_size(f: FormulaV) -> nat
    decreases f,
{
    match f {
        FormulaV::Neg(g) => 1 + formula_size(*g),
        FormulaV::And(fs) => 1 + formulas_size(fs),
        FormulaV::Or(fs) => 1 + formulas_size(fs),
        _ => 1,
    }
}

/// Total number of nodes of a list of formulas.
pub open spec fn formulas_size(fs: Seq<FormulaV>) -> nat
    decreases fs,
{
    if fs.len() == 0 {
        0
    } else {
        formulas_size(fs.drop_last()) + formula_size(fs.last())
    }
}

/// `fs` with `g` added unless already present.
pub open spec fn set_insert(fs: Seq<FormulaV>, g: FormulaV) -> Seq<FormulaV> {
    if fs.contains(g) {
        fs
    } else {
        fs.push(g)
    }
}

/// `fs1` with the members of `fs2` added in order.
pub open spec fn set_union(fs1: Seq<FormulaV>, fs2: Seq<FormulaV>) -> Seq<FormulaV>
    decreases fs2.len(),
{
    if fs2.len() == 0 {
        fs1
    } else {
        set_insert(set_union(fs1, fs2.drop_last()), fs2.last())
    }
}

/// Negation with double negations and constants folded.
pub open spec fn neg_spec(f: FormulaV) -> FormulaV {
    match f {
        FormulaV::True(v) => FormulaV::False(v),
        FormulaV::False(v) => FormulaV::True(v),
        FormulaV::Neg(g) => *g,
        _ => FormulaV::Neg(Box::new(f)),
    }
}

/// One of the two formulas is the negation of the other.
pub open spec fn complementary(a: FormulaV, b: FormulaV) -> bool {
    (a matches FormulaV::Neg(x) && *x == b) || (b matches FormulaV::Neg(x) && *x == a)
}

/// Conjunction with constants folded and conjunctions merged.
pub open spec fn and_spec(a: FormulaV, b: FormulaV) -> FormulaV {
    if a is True {
        b
    } else if b is True {
        a
    } else if a is False && b is False {
        FormulaV::False(a->False_0.union(b->False_0))
    } else if a is False {
        a
    } else if b is False {
        b
    } else if complementary(a, b) {
        FormulaV::False(formula_vars(a).union(formula_vars(b)))
    } else if a is And && b is And {
        FormulaV::And(set_union(a->And_0, b->And_0))
    } else if a is And {
        FormulaV::And(set_insert(a->And_0, b))
    } else if b is And {
        FormulaV::And(set_insert(b->And_0, a))
    } else {
        FormulaV::And(set_insert(seq![a], b))
    }
}

/// The variables of a member are variables of the list.
pub proof fn lemma_formulas_vars_contains(fs: Seq<FormulaV>, g: FormulaV)
    requires
        fs.contains(g),
    ensures
        formula_vars(g).subset_of(formulas_vars(fs)),
    decreases fs.len(),
{
    if fs.last() != g {
        let w = choose|w: int| 0 <= w < fs.len() && fs[w] == g;
        assert(fs.drop_last()[w] == g);
        lemma_formulas_vars_contains(fs.drop_last(), g);
    }
}

/// Variables of a list with one formula added.
pub proof fn lemma_set_insert_vars(fs: Seq<FormulaV>, g: FormulaV)
    ensures
        formulas_vars(set_insert(fs, g)) == formulas_vars(fs).union(formula_vars(g)),
{
    if fs.contains(g) {
        lemma_formulas_vars_contains(fs, g);
        assert(formulas_vars(fs).union(formula_vars(g)) =~= formulas_vars(fs));
    } else {
        assert(fs.push(g).drop_last() =~= fs);
    }
}

/// Variables of the union of two lists.
pub proof fn lemma_set_union_vars(fs1: Seq<FormulaV>, fs2: Seq<FormulaV>)
    ensures
        formulas_vars(set_union(fs1, fs2)) == formulas_vars(fs1).union(formulas_vars(fs2)),
    decreases fs2.len(),
{
    if fs2.len() == 0 {
        assert(formulas_vars(fs1).union(Set::empty()) =~= formulas_vars(fs1));
    } else {
        lemma_set_union_vars(fs1, fs2.drop_last());
        lemma_set_insert_vars(set_union(fs1, fs2.drop_last()), fs2.last());
        assert(formulas_vars(fs1).union(formulas_vars(fs2.drop_last())).union(formula_vars(fs2.last())) =~= formulas_vars(
            fs1,
        ).union(formulas_vars(fs2)));
    }
}

/// A conjunction of two formulas that are neither constants nor complementary is a
/// conjunction over the variables of both.
pub proof fn lemma_and_spec_vars(a: FormulaV, b: FormulaV)
    requires
        !(a is True),
        !(a is False),
        !(b is True),
        !(b is False),
        !complementary(a, b),
    ensures
        and_spec(a, b) is And,
        formula_vars(and_spec(a, b)) == formula_vars(a).union(formula_vars(b)),
{
    if a is And && b is And {
        lemma_set_union_vars(a->And_0, b->And_0);
    } else if a is And {
        lemma_set_insert_vars(a->And_0, b);
    } else if b is And {
        lemma_set_insert_vars(b->And_0, a);
        assert(formula_vars(b).union(formula_vars(a)) =~= formula_vars(a).union(formula_vars(b)));
    } else {
        let one = seq![a];
        assert(one.drop_last() =~= Seq::<FormulaV>::empty());
        assert(one.last() == a);
        assert(formulas_vars(one) == formulas_vars(one.drop_last()).union(formula_vars(one.last())));
        assert(formulas_vars(Seq::<FormulaV>::empty()) == Set::<Seq<char>>::empty());
        assert(formulas_vars(one) =~= formula_vars(a));
        lemma_set_insert_vars(one, b);
    }
}

/// Disjunction with constants folded and disjunctions merged.
pub open spec fn or_spec(a: FormulaV, b: FormulaV) -> FormulaV {
    if a is False {
        b
    } else if b is False {
        a
    } else if a is True && b is True {
        FormulaV::True(a->True_0.union(b->True_0))
    } else if a is True {
        a
    } else if b is True {
        b
    } else if complementary(a, b) {
        FormulaV::True(formula_vars(a).union(formula_vars(b)))
    } else if a is Or && b is Or {
        FormulaV::Or(set_union(a->Or_0, b->Or_0))
    } else if a is Or {
        FormulaV::Or(set_insert(a->Or_0, b))
    } else if b is Or {
        FormulaV::Or(set_insert(b->Or_0, a))
    } else {
        FormulaV::Or(set_insert(seq![a], b))
    }
}

/// Equality atom, folded to `True` on syntactically equal terms.
pub open spec fn eq_spec(a: TermV, b: TermV) -> FormulaV {
    if a == b {
        FormulaV::True(term_vars(a).union(term_vars(b)))
    } else {
        FormulaV::Eq(a, b)
    }
}

/// Membership in a set-like list of formulas, by view.
pub open spec fn fs_has(fs: Seq<FormulaV>, g: FormulaV) -> bool {
    fs.contains(g)
}

/// The names of `a` and `b` form the same set.
pub fn same_names(a: &Vec<Variable>, b: &Vec<Variable>) -> (r: bool)
    ensures
        r == (name_set(a@) == name_set(b@)),
{
    let ok1 = names_within(a, b);
    let ok2 = names_within(b, a);
    proof {
        if ok1 && ok2 {
            assert(name_set(a@) =~= name_set(b@));
        }
        if name_set(a@) == name_set(b@) {
            assert(name_set(a@).subset_of(name_set(b@)));
        }
    }
    ok1 && ok2
}

/// Every name of `a` is a name of `b`.
pub fn names_within(a: &Vec<Variable>, b: &Vec<Variable>) -> (r: bool)
    ensures
        r == name_set(a@).subset_of(name_set(b@)),
{
    let mut i: usize = 0;
    while i < a.len()
        invariant
            i <= a.len(),
            forall|k: int| 0 <= k < i ==> name_set(b@).contains(#[trigger] names(a@)[k]),
        decreases a.len() - i,
    {
        let mut found = false;
        let mut j: usize = 0;
        while j < b.len()
            invariant
                j <= b.len(),
                i < a.len(),
                found ==> name_set(b@).contains(names(a@)[i as int]),
                !found ==> forall|k: int| 0 <= k < j ==> names(b@)[k] != names(a@)[i as int],
            decreases b.len() - j,
        {
            if b[j].sym == a[i].sym {
                proof {
                    assert(names(b@)[j as int] == names(a@)[i as int]);
                }
                found = true;
            }
            j += 1;
        }
        if !found {
            proof {
                assert(names(a@)[i as int] == a@[i as int].sym@);
                assert(name_set(a@).contains(names(a@)[i as int]));
                assert(!name_set(b@).contains(names(a@)[i as int])) by {
                    if names(b@).contains(names(a@)[i as int]) {
                        let k = choose|k: int| 0 <= k < names(b@).len() && names(b@)[k] == names(a@)[i as int];
                    }
                }
            }
            return false;
        }
        i += 1;
    }
    proof {
        assert forall|x: Seq<char>| name_set(a@).contains(x) implies name_set(b@).contains(x) by {
            let k = choose|k: int| 0 <= k < names(a@).len() && names(a@)[k] == x;
        }
    }
    true
}

/// Structural equality of formulas (the variable lists compared as sets).
pub fn formula_eq(a: &Formula, b: &Formula) -> (r: bool)
    ensures
        r == (formula_view(*a) == formula_view(*b)),
    decreases a,
{
    match (a, b) {
        (Formula::True(x), Formula::True(y)) => same_names(x, y),
        (Formula::False(x), Formula::False(y)) => same_names(x, y),
        (Formula::Eq(a1, a2), Formula::Eq(b1, b2)) => term_eq(a1, b1) && term_eq(a2, b2),
        (Formula::Neg(x), Formula::Neg(y)) => formula_eq(x, y),
        (Formula::And(xs), Formula::And(ys)) => formulas_eq(xs, ys),
        (Formula::Or(xs), Formula::Or(ys)) => formulas_eq(xs, ys),
        _ => false,
    }
}

/// Elementwise structural equality of two lists of formulas.
pub fn formulas_eq(xs: &Vec<Formula>, ys: &Vec<Formula>) -> (r: bool)
    ensures
        r == (formulas_view(xs@) == formulas_view(ys@)),
    decreases xs,
{
    proof {
        lemma_formulas_view(xs@);
        lemma_formulas_view(ys@);
    }
    if xs.len() != ys.len() {
        return false;
    }
    let mut i: usize = 0;
    while i < xs.len()
        invariant
            i <= xs.len(),
            xs.len() == ys.len(),
            forall|j: int| 0 <= j < i ==> formula_view(xs@[j]) == formula_view(ys@[j]),
        decreases xs.len() - i,
    {
        proof {
            assert(decreases_to!(xs => xs[i as int]));
            lemma_formulas_view(xs@);
            lemma_formulas_view(ys@);
        }
        if !formula_eq(&xs[i], &ys[i]) {
            proof {
                if formulas_view(xs@) == formulas_view(ys@) {
                    assert(formulas_view(xs@)[i as int] == formulas_view(ys@)[i as int]);
                }
            }
            return false;
        }
        i += 1;
    }
    proof {
        lemma_formulas_view(xs@);
        lemma_formulas_view(ys@);
        assert forall|j: int| 0 <= j < xs.len() implies formulas_view(xs@)[j] == formulas_view(ys@)[j] by {
            assert(formula_view(xs@[j]) == formula_view(ys@[j]));
        }
        assert(formulas_view(xs@) =~= formulas_view(ys@));
    }
    true
}

/// Deep copy of a formula.
pub fn copy_formula(f: &Formula) -> (r: Formula)
    ensures
        formula_view(r) == formula_view(*f),
    decreases f,
{
    match f {
        Formula::True(v) => Formula::True(copy_vars(v)),
        Formula::False(v) => Formula::False(copy_vars(v)),
        Formula::Eq(a, b) => Formula::Eq(copy_term(a), copy_term(b)),
        Formula::Neg(g) => Formula::Neg(Box::new(copy_formula(g))),
        Formula::And(fs) => Formula::And(copy_formulas(fs)),
        Formula::Or(fs) => Formula::Or(copy_formulas(fs)),
    }
}

/// Deep copy of a list of formulas.
pub fn copy_formulas(fs: &Vec<Formula>) -> (r: Vec<Formula>)
    ensures
        formulas_view(r@) == formulas_view(fs@),
    decreases fs,
{
    let mut out: Vec<Formula> = Vec::new();
    let mut i: usize = 0;
    proof {
        assert(formulas_view(out@) =~= formulas_view(fs@.take(0)));
    }
    while i < fs.len()
        invariant
            i <= fs.len(),
            formulas_view(out@) == formulas_view(fs@.take(i as int)),
        decreases fs.len() - i,
    {
        proof {
            assert(decreases_to!(fs => fs[i as int]));
        }
        let c = copy_formula(&fs[i]);
        let ghost before = out@;
        out.push(c);
        proof {
            lemma_formulas_view_step(fs@, i as int);
            assert(out@.drop_last() =~= before);
            assert(out@.last() == c);
        }
        i += 1;
    }
    proof {
        assert(fs@.take(fs.len() as int) =~= fs@);
    }
    out
}

/// Adds `g` to a list of formulas unless an equal formula is present.
pub fn insert_formula(fs: &mut Vec<Formula>, g: Formula)
    ensures
        formulas_view(final(fs)@) == set_insert(formulas_view(old(fs)@), formula_view(g)),
{
    proof {
        lemma_formulas_view(fs@);
    }
    let mut i: usize = 0;
    while i < fs.len()
        invariant
            i <= fs.len(),
            forall|j: int| 0 <= j < i ==> formula_view(#[trigger] fs@[j]) != formula_view(g),
        decreases fs.len() - i,
    {
        if formula_eq(&fs[i], &g) {
            proof {
                lemma_formulas_view(fs@);
                assert(formulas_view(fs@)[i as int] == formula_view(g));
            }
            return;
        }
        i += 1;
    }
    let ghost before = fs@;
    proof {
        lemma_formulas_view(before);
        assert(!formulas_view(before).contains(formula_view(g))) by {
            if formulas_view(before).contains(formula_view(g)) {
                let k = choose|k: int| 0 <= k < formulas_view(before).len() && formulas_view(before)[k] == formula_view(g);
                assert(formula_view(before[k]) == formula_view(g));
            }
        }
    }
    fs.push(g);
    proof {
        assert(fs@.drop_last() =~= before);
    }
}

/// Adds the members of `gs` to `fs` in order.
pub fn union_formulas(fs: &mut Vec<Formula>, gs: &Vec<Formula>)
    ensures
        formulas_view(final(fs)@) == set_union(formulas_view(old(fs)@), formulas_view(gs@)),
{
    let ghost start = formulas_view(fs@);
    let mut i: usize = 0;
    proof {
        assert(formulas_view(gs@.take(0)) =~= Seq::<FormulaV>::empty());
    }
    while i < gs.len()
        invariant
            i <= gs.len(),
            formulas_view(fs@) == set_union(start, formulas_view(gs@.take(i as int))),
        decreases gs.len() - i,
    {
        let c = copy_formula(&gs[i]);
        insert_formula(fs, c);
        proof {
            lemma_formulas_view_step(gs@, i as int);
            let t = formulas_view(gs@.take(i + 1));
            assert(t.drop_last() =~= formulas_view(gs@.take(i as int)));
        }
        i += 1;
    }
    proof {
        assert(gs@.take(gs.len() as int) =~= gs@);
    }
}

/// Equality atom between two terms (`True` when the terms coincide).
pub fn eq(t1: Term, t2: Term) -> (r: Formula)
    ensures
        formula_view(r) == eq_spec(term_view(t1), term_view(t2)),
{
    if term_eq(&t1, &t2) {
        let mut v = t1.free_vars();
        let v2 = t2.free_vars();
        extend_vars(&mut v, &v2);
        Formula::True(v)
    } else {
        Formula::Eq(t1, t2)
    }
}

/// `True` over the given variables (none when absent).
pub fn true_formula(orphan_vars: Option<Vec<Variable>>) -> (r: Formula)
    ensures
        formula_view(r) == FormulaV::True(match orphan_vars {
            Some(v) => name_set(v@),
            None => Set::empty(),
        }),
{
    match orphan_vars {
        Some(v) => Formula::True(v),
        None => {
            let v: Vec<Variable> = Vec::new();
            proof {
                assert(name_set(v@) =~= Set::<Seq<char>>::empty());
            }
            Formula::True(v)
        },
    }
}

/// `False` over the given variables (none when absent).
pub fn false_formula(orphan_vars: Option<Vec<Variable>>) -> (r: Formula)
    ensures
        formula_view(r) == FormulaV::False(match orphan_vars {
            Some(v) => name_set(v@),
            None => Set::empty(),
        }),
{
    match orphan_vars {
        Some(v) => Formula::False(v),
        None => {
            let v: Vec<Variable> = Vec::new();
            proof {
                assert(name_set(v@) =~= Set::<Seq<char>>::empty());
            }
            Formula::False(v)
        },
    }
}

/// A duplicate-free list of variables with the given names.
pub fn vars_union(a: &Vec<Variable>, b: &Vec<Variable>) -> (r: Vec<Variable>)
    ensures
        names(r@).no_duplicates(),
        name_set(r@) == name_set(a@).union(name_set(b@)),
{
    let mut out: Vec<Variable> = Vec::new();
    proof {
        assert(name_set(out@) =~= Set::<Seq<char>>::empty());
        assert(names(out@) =~= Seq::<Seq<char>>::empty());
    }
    extend_vars(&mut out, a);
    extend_vars(&mut out, b);
    proof {
        assert(name_set(out@) =~= name_set(a@).union(name_set(b@)));
    }
    out
}

impl Formula {
    /// Negation (constants swapped, double negation removed).
    pub fn neg(&self) -> (r: Formula)
        ensures
            formula_view(r) == neg_spec(formula_view(*self)),
    {
        match self {
            Formula::True(v) => Formula::False(copy_vars(v)),
            Formula::False(v) => Formula::True(copy_vars(v)),
            Formula::Neg(f) => copy_formula(f),
            _ => Formula::Neg(Box::new(copy_formula(self))),
        }
    }

    /// Variables occurring in the formula, each once.
    pub fn free_vars(&self) -> (r: Vec<Variable>)
        ensures
            names(r@).no_duplicates(),
            name_set(r@) == formula_vars(formula_view(*self)),
        decreases self,
    {
        match self {
            Formula::True(v) | Formula::False(v) => {
                let e: Vec<Variable> = Vec::new();
                vars_union(v, &e)
            },
            Formula::Eq(t1, t2) => {
                let a = t1.free_vars();
                let b = t2.free_vars();
                vars_union(&a, &b)
            },
            Formula::Neg(f) => f.free_vars(),
            Formula::And(fs) | Formula::Or(fs) => {
                let mut out: Vec<Variable> = Vec::new();
                let mut i: usize = 0;
                proof {
                    assert(names(out@) =~= Seq::<Seq<char>>::empty());
                    assert(formulas_view(fs@.take(0)) =~= Seq::<FormulaV>::empty());
                    assert(name_set(out@) =~= Set::<Seq<char>>::empty());
                }
                #[verifier::loop_isolation(false)]
                while i < fs.len()
                    invariant
                        i <= fs.len(),
                        names(out@).no_duplicates(),
                        name_set(out@) == formulas_vars(formulas_view(fs@.take(i as int))),
                    decreases fs.len() - i,
                {
                    proof {
                        assert(decreases_to!(fs => fs[i as int]));
                    }
                    let fv = fs[i].free_vars();
                    extend_vars(&mut out, &fv);
                    proof {
                        lemma_formulas_view_step(fs@, i as int);
                        let t = formulas_view(fs@.take(i + 1));
                        assert(t.drop_last() =~= formulas_view(fs@.take(i as int)));
                    }
                    i += 1;
                }
                proof {
                    assert(fs@.take(fs.len() as int) =~= fs@);
                }
                out
            },
        }
    }

    /// Number of nodes of the formula.
    pub fn ast_size(&self) -> (r: usize)
        requires
            formula_size(formula_view(*self)) <= usize::MAX,
        ensures
            r == formula_size(formula_view(*self)),
        decreases self,
    {
        match self {
            Formula::True(_) | Formula::False(_) | Formula::Eq(_, _) => 1,
            Formula::Neg(f) => 1 + f.ast_size(),
            Formula::And(fs) | Formula::Or(fs) => {
                let mut total: usize = 0;
                let mut i: usize = 0;
                proof {
                    assert(formulas_view(fs@.take(0)) =~= Seq::<FormulaV>::empty());
                }
                #[verifier::loop_isolation(false)]
                while i < fs.len()
                    invariant
                        i <= fs.len(),
                        total == formulas_size(formulas_view(fs@.take(i as int))),
                    decreases fs.len() - i,
                {
                    proof {
                        assert(decreases_to!(fs => fs[i as int]));
                        lemma_formulas_view_step(fs@, i as int);
                        let t = formulas_view(fs@.take(i + 1));
                        assert(t.drop_last() =~= formulas_view(fs@.take(i as int)));
                        lemma_formulas_size_prefix(fs@, i + 1);
                    }
                    let k = fs[i].ast_size();
                    total = total + k;
                    i += 1;
                }
                proof {
                    assert(fs@.take(fs.len() as int) =~= fs@);
                }
                total + 1
            },
        }
    }
}

/// The size of a prefix bounds nothing beyond the whole list.
pub proof fn lemma_formulas_size_prefix(fs: Seq<Formula>, n: int)
    requires
        0 <= n <= fs.len(),
    ensures
        formulas_size(formulas_view(fs.take(n))) <= formulas_size(formulas_view(fs)),
    decreases fs.len(),
{
    if n < fs.len() {
        lemma_formulas_size_prefix(fs.drop_last(), n);
        assert(fs.drop_last().take(n) =~= fs.take(n));
        assert(fs.take(fs.len() as int) =~= fs);
        lemma_formulas_view_step(fs, fs.len() - 1);
        assert(fs.take(fs.len() - 1) =~= fs.drop_last());
        let t = formulas_view(fs);
        assert(t.drop_last() =~= formulas_view(fs.drop_last()));
    } else {
        assert(fs.take(n) =~= fs);
    }
}

/// One of the two formulas is the negation of the other.
pub fn is_complementary(a: &Formula, b: &Formula) -> (r: bool)
    ensures
        r == complementary(formula_view(*a), formula_view(*b)),
{
    let c1 = match a {
        Formula::Neg(x) => formula_eq(x, b),
        _ => false,
    };
    let c2 = match b {
        Formula::Neg(x) => formula_eq(x, a),
        _ => false,
    };
    c1 || c2
}

/// A one-element list of formulas.
pub fn singleton_formulas(f: Formula) -> (r: Vec<Formula>)
    ensures
        formulas_view(r@) == seq![formula_view(f)],
{
    let mut v: Vec<Formula> = Vec::new();
    v.push(f);
    proof {
        assert(v@[0] == f);
        assert(v@.drop_last() =~= Seq::<Formula>::empty());
        assert(formulas_view(v@.drop_last()) =~= Seq::<FormulaV>::empty());
        assert(formulas_view(v@) =~= seq![formula_view(f)]);
    }
    v
}

impl Formula {
    /// Conjunction with constants folded and conjunctions merged.
    pub fn and_formula(&self, other: &Formula) -> (r: Formula)
        ensures
            formula_view(r) == and_spec(formula_view(*self), formula_view(*other)),
    {
        if let Formula::True(_) = self {
            return copy_formula(other);
        }
        if let Formula::True(_) = other {
            return copy_formula(self);
        }
        match (self, other) {
            (Formula::False(v1), Formula::False(v2)) => {
                return Formula::False(vars_union(v1, v2));
            },
            (Formula::False(v), _) => {
                return Formula::False(copy_vars(v));
            },
            (_, Formula::False(v)) => {
                return Formula::False(copy_vars(v));
            },
            _ => {},
        }
        if is_complementary(self, other) {
            let a = self.free_vars();
            let b = other.free_vars();
            return Formula::False(vars_union(&a, &b));
        }
        match (self, other) {
            (Formula::And(fs1), Formula::And(fs2)) => {
                let mut s = copy_formulas(fs1);
                union_formulas(&mut s, fs2);
                Formula::And(s)
            },
            (Formula::And(fs), o) => {
                let mut s = copy_formulas(fs);
                insert_formula(&mut s, copy_formula(o));
                Formula::And(s)
            },
            (o, Formula::And(fs)) => {
                let mut s = copy_formulas(fs);
                insert_formula(&mut s, copy_formula(o));
                Formula::And(s)
            },
            _ => {
                let mut s = singleton_formulas(copy_formula(self));
                insert_formula(&mut s, copy_formula(other));
                Formula::And(s)
            },
        }
    }

    /// Disjunction with constants folded and disjunctions merged.
    pub fn or_formula(&self, other: &Formula) -> (r: Formula)
        ensures
            formula_view(r) == or_spec(formula_view(*self), formula_view(*other)),
    {
        if let Formula::False(_) = self {
            return copy_formula(other);
        }
        if let Formula::False(_) = other {
            return copy_formula(self);
        }
        match (self, other) {
            (Formula::True(v1), Formula::True(v2)) => {
                return Formula::True(vars_union(v1, v2));
            },
            (Formula::True(v), _) => {
                return Formula::True(copy_vars(v));
            },
            (_, Formula::True(v)) => {
                return Formula::True(copy_vars(v));
            },
            _ => {},
        }
        if is_complementary(self, other) {
            let a = self.free_vars();
            let b = other.free_vars();
            return Formula::True(vars_union(&a, &b));
        }
        match (self, other) {
            (Formula::Or(fs1), Formula::Or(fs2)) => {
                let mut s = copy_formulas(fs1);
                union_formulas(&mut s, fs2);
                Formula::Or(s)
            },
            (Formula::Or(fs), o) => {
                let mut s = copy_formulas(fs);
                insert_formula(&mut s, copy_formula(o));
                Formula::Or(s)
            },
            (o, Formula::Or(fs)) => {
                let mut s = copy_formulas(fs);
                insert_formula(&mut s, copy_formula(o));
                Formula::Or(s)
            },
            _ => {
                let mut s = singleton_formulas(copy_formula(self));
                insert_formula(&mut s, copy_formula(other));
                Formula::Or(s)
            },
        }
    }

    /// Truth of the formula in `model` under the assignment `vector`
    /// (an undefined term takes the value `i64::MIN`).
    pub fn satisfy(&self, model: &Model, vector: &Vec<(Variable, i64)>) -> (r: bool)
        requires
            ops_wf(model.operations@),
        ensures
            r == sat(formula_view(*self), model.operations@, env_view(vector@)),
        decreases self,
    {
        match self {
            Formula::True(_) => true,
            Formula::False(_) => false,
            Formula::Eq(t1, t2) => {
                let v1 = match t1.evaluate(&model.operations, vector) {
                    Ok(v) => v,
                    Err(_) => i64::MIN,
                };
                let v2 = match t2.evaluate(&model.operations, vector) {
                    Ok(v) => v,
                    Err(_) => i64::MIN,
                };
                v1 == v2
            },
            Formula::Neg(f) => !f.satisfy(model, vector),
            Formula::And(fs) | Formula::Or(fs) => {
                let is_and = match self {
                    Formula::And(_) => true,
                    _ => false,
                };
                let mut acc = is_and;
                let mut i: usize = 0;
                proof {
                    assert(formulas_view(fs@.take(0)) =~= Seq::<FormulaV>::empty());
                }
                #[verifier::loop_isolation(false)]
                while i < fs.len()
                    invariant
                        i <= fs.len(),
                        is_and ==> acc == all_sat(formulas_view(fs@.take(i as int)), model.operations@, env_view(vector@)),
                        !is_and ==> acc == any_sat(formulas_view(fs@.take(i as int)), model.operations@, env_view(vector@)),
                    decreases fs.len() - i,
                {
                    proof {
                        assert(decreases_to!(fs => fs[i as int]));
                        lemma_formulas_view_step(fs@, i as int);
                        let t = formulas_view(fs@.take(i + 1));
                        assert(t.drop_last() =~= formulas_view(fs@.take(i as int)));
                    }
                    let b = fs[i].satisfy(model, vector);
                    if is_and {
                        acc = acc && b;
                    } else {
                        acc = acc || b;
                    }
                    i += 1;
                }
                proof {
                    assert(fs@.take(fs.len() as int) =~= fs@);
                }
                acc
            },
        }
    }
}

/// Truth of a list after a set insertion.
pub proof fn lemma_sat_insert(fs: Seq<FormulaV>, g: FormulaV, ops: Seq<Operation>, env: Seq<(Seq<char>, i64)>)
    ensures
        all_sat(set_insert(fs, g), ops, env) == (all_sat(fs, ops, env) && sat(g, ops, env)),
        any_sat(set_insert(fs, g), ops, env) == (any_sat(fs, ops, env) || sat(g, ops, env)),
{
    lemma_all_any_sat(fs, ops, env);
    if fs.contains(g) {
        let k = choose|k: int| 0 <= k < fs.len() && fs[k] == g;
        assert(sat(fs[k], ops, env) == sat(g, ops, env));
    } else {
        assert(fs.push(g).drop_last() =~= fs);
    }
}

/// Truth of a list after a set union.
pub proof fn lemma_sat_union(fs1: Seq<FormulaV>, fs2: Seq<FormulaV>, ops: Seq<Operation>, env: Seq<(Seq<char>, i64)>)
    ensures
        all_sat(set_union(fs1, fs2), ops, env) == (all_sat(fs1, ops, env) && all_sat(fs2, ops, env)),
        any_sat(set_union(fs1, fs2), ops, env) == (any_sat(fs1, ops, env) || any_sat(fs2, ops, env)),
    decreases fs2.len(),
{
    if fs2.len() > 0 {
        lemma_sat_union(fs1, fs2.drop_last(), ops, env);
        lemma_sat_insert(set_union(fs1, fs2.drop_last()), fs2.last(), ops, env);
    }
}

/// Law: `and_formula` is semantic conjunction.
pub proof fn law_and_formula_is_conjunction(a: FormulaV, b: FormulaV, ops: Seq<Operation>, env: Seq<(Seq<char>, i64)>)
    ensures
        sat(and_spec(a, b), ops, env) == (sat(a, ops, env) && sat(b, ops, env)),
{
    if !(a is True) && !(b is True) && !(a is False) && !(b is False) && !complementary(a, b) {
        if a is And && b is And {
            lemma_sat_union(a->And_0, b->And_0, ops, env);
        } else if a is And {
            lemma_sat_insert(a->And_0, b, ops, env);
        } else if b is And {
            lemma_sat_insert(b->And_0, a, ops, env);
        } else {
            lemma_sat_insert(seq![a], b, ops, env);
            assert(seq![a].drop_last() =~= Seq::<FormulaV>::empty());
            assert(seq![a].last() == a);
            assert(all_sat(Seq::<FormulaV>::empty(), ops, env));
            assert(all_sat(seq![a], ops, env) == sat(a, ops, env));
        }
    }
}

/// Law: `or_formula` is semantic disjunction.
pub proof fn law_or_formula_is_disjunction(a: FormulaV, b: FormulaV, ops: Seq<Operation>, env: Seq<(Seq<char>, i64)>)
    ensures
        sat(or_spec(a, b), ops, env) == (sat(a, ops, env) || sat(b, ops, env)),
{
    if !(a is True) && !(b is True) && !(a is False) && !(b is False) && !complementary(a, b) {
        if a is Or && b is Or {
            lemma_sat_union(a->Or_0, b->Or_0, ops, env);
        } else if a is Or {
            lemma_sat_insert(a->Or_0, b, ops, env);
        } else if b is Or {
            lemma_sat_insert(b->Or_0, a, ops, env);
        } else {
            lemma_sat_insert(seq![a], b, ops, env);
            assert(seq![a].drop_last() =~= Seq::<FormulaV>::empty());
            assert(seq![a].last() == a);
            assert(!any_sat(Seq::<FormulaV>::empty(), ops, env));
            assert(any_sat(seq![a], ops, env) == sat(a, ops, env));
        }
    }
}

/// Negation flips truth.
pub proof fn lemma_neg_sat(f: FormulaV, ops: Seq<Operation>, env: Seq<(Seq<char>, i64)>)
    ensures
        sat(neg_spec(f), ops, env) == !sat(f, ops, env),
{
    match f {
        FormulaV::Neg(g) => {
            assert(sat(f, ops, env) == !sat(*g, ops, env));
        },
        _ => {},
    }
}

/// Law: `neg` is semantic negation, and negating twice gives back the formula's meaning.
pub proof fn law_neg_is_negation(f: FormulaV, ops: Seq<Operation>, env: Seq<(Seq<char>, i64)>)
    ensures
        sat(neg_spec(f), ops, env) == !sat(f, ops, env),
        sat(neg_spec(neg_spec(f)), ops, env) == sat(f, ops, env),
{
    lemma_neg_sat(f, ops, env);
    lemma_neg_sat(neg_spec(f), ops, env);
}

/// Law: an equality atom holds exactly when both terms take the same value.
pub proof fn law_eq_is_equality(a: TermV, b: TermV, ops: Seq<Operation>, env: Seq<(Seq<char>, i64)>)
    ensures
        sat(eq_spec(a, b), ops, env) == (term_value(a, ops, env) == term_value(b, ops, env)),
{
}

/// A formula that may stand directly inside a conjunction (`conj`) or a disjunction
/// in simplified form: no constant, and no conjunction in a conjunction nor
/// disjunction in a disjunction.
pub open spec fn flat_member(g: FormulaV, conj: bool) -> bool {
    &&& !(g is True)
    &&& !(g is False)
    &&& if conj {
        !(g is And)
    } else {
        !(g is Or)
    }
}

/// The shape `simplify_ast` gives: no double negation, no negated constant, and every
/// conjunction or disjunction has at least two members, none of them a constant or a
/// connective of its own kind, all in this shape again.
pub open spec fn simplified(f: FormulaV) -> bool
    decreases f,
{
    match f {
        FormulaV::Neg(g) => !(*g is Neg) && !(*g is True) && !(*g is False) && simplified(*g),
        FormulaV::And(fs) => fs.len() >= 2 && members_simplified(fs, true),
        FormulaV::Or(fs) => fs.len() >= 2 && members_simplified(fs, false),
        _ => true,
    }
}

/// Every member of the list is a simplified flat member.
pub open spec fn members_simplified(fs: Seq<FormulaV>, conj: bool) -> bool
    decreases fs,
{
    if fs.len() == 0 {
        true
    } else {
        members_simplified(fs.drop_last(), conj) && flat_member(fs.last(), conj) && simplified(fs.last())
    }
}

/// `members_simplified` member by member.
pub proof fn lemma_members_simplified(fs: Seq<FormulaV>, conj: bool)
    ensures
        members_simplified(fs, conj) <==> forall|k: int|
            0 <= k < fs.len() ==> flat_member(#[trigger] fs[k], conj) && simplified(fs[k]),
    decreases fs.len(),
{
    if fs.len() > 0 {
        lemma_members_simplified(fs.drop_last(), conj);
        if members_simplified(fs, conj) {
            assert forall|k: int| 0 <= k < fs.len() implies flat_member(#[trigger] fs[k], conj) && simplified(fs[k]) by {
                if k < fs.len() - 1 {
                    assert(fs.drop_last()[k] == fs[k]);
                }
            }
        }
        if forall|k: int| 0 <= k < fs.len() ==> flat_member(#[trigger] fs[k], conj) && simplified(fs[k]) {
            assert forall|k: int| 0 <= k < fs.len() - 1 implies flat_member(#[trigger] fs.drop_last()[k], conj) && simplified(
                fs.drop_last()[k],
            ) by {
                assert(fs.drop_last()[k] == fs[k]);
            }
            assert(flat_member(fs[fs.len() - 1], conj));
        }
    }
}

/// Every member of a set union comes from one of the two lists.
pub proof fn lemma_set_union_from(fs1: Seq<FormulaV>, fs2: Seq<FormulaV>, x: FormulaV)
    requires
        set_union(fs1, fs2).contains(x),
    ensures
        fs1.contains(x) || fs2.contains(x),
    decreases fs2.len(),
{
    if fs2.len() > 0 {
        let u = set_union(fs1, fs2.drop_last());
        if u.contains(x) {
            lemma_set_union_from(fs1, fs2.drop_last(), x);
            if fs2.drop_last().contains(x) {
                let w = choose|w: int| 0 <= w < fs2.drop_last().len() && fs2.drop_last()[w] == x;
                assert(fs2[w] == x);
            }
        } else {
            let w = choose|w: int| 0 <= w < set_insert(u, fs2.last()).len() && set_insert(u, fs2.last())[w] == x;
            assert(x == fs2.last());
            assert(fs2[fs2.len() - 1] == x);
        }
    }
}

impl Formula {
    /// An equivalent formula with constants folded, double negations removed and nested
    /// conjunctions and disjunctions flattened.
    pub fn simplify_ast(&self) -> (r: Formula)
        ensures
            forall|ops: Seq<Operation>, env: Seq<(Seq<char>, i64)>|
                #[trigger] sat(formula_view(r), ops, env) == sat(formula_view(*self), ops, env),
            simplified(formula_view(r)),
        decreases self, 0nat,
    {
        match self {
            Formula::True(v) => Formula::True(copy_vars(v)),
            Formula::False(v) => Formula::False(copy_vars(v)),
            Formula::Eq(a, b) => {
                if term_eq(a, b) {
                    Formula::True(a.free_vars())
                } else {
                    Formula::Eq(copy_term(a), copy_term(b))
                }
            },
            Formula::Neg(f) => {
                let s = f.simplify_ast();
                let ghost sv = formula_view(s);
                let r = match s {
                    Formula::True(v) => Formula::False(v),
                    Formula::False(v) => Formula::True(v),
                    Formula::Neg(inner) => *inner,
                    other => Formula::Neg(Box::new(other)),
                };
                proof {
                    assert(formula_view(r) == neg_spec(sv));
                    assert forall|ops: Seq<Operation>, env: Seq<(Seq<char>, i64)>|
                        #[trigger] sat(formula_view(r), ops, env) == sat(formula_view(*self), ops, env) by {
                        lemma_neg_sat(sv, ops, env);
                    }
                }
                r
            },
            Formula::And(fs) => simplify_list(fs, true),
            Formula::Or(fs) => simplify_list(fs, false),
        }
    }
}

/// Truth of a list read as a conjunction (`conj`) or a disjunction.
pub open spec fn list_sat(fs: Seq<FormulaV>, conj: bool, ops: Seq<Operation>, env: Seq<(Seq<char>, i64)>) -> bool {
    if conj {
        all_sat(fs, ops, env)
    } else {
        any_sat(fs, ops, env)
    }
}

/// Truth of a list grown by one formula.
pub proof fn lemma_list_step(fs: Seq<FormulaV>, g: FormulaV, conj: bool, ops: Seq<Operation>, env: Seq<(Seq<char>, i64)>)
    ensures
        list_sat(fs.push(g), conj, ops, env) == (if conj {
            list_sat(fs, conj, ops, env) && sat(g, ops, env)
        } else {
            list_sat(fs, conj, ops, env) || sat(g, ops, env)
        }),
{
    assert(fs.push(g).drop_last() =~= fs);
}

/// Simplification of the members of a conjunction (`conj`) or a disjunction.
fn simplify_list(fs: &Vec<Formula>, conj: bool) -> (r: Formula)
    ensures
        forall|ops: Seq<Operation>, env: Seq<(Seq<char>, i64)>|
            #[trigger] sat(formula_view(r), ops, env) == list_sat(formulas_view(fs@), conj, ops, env),
        simplified(formula_view(r)),
    decreases fs, 1nat,
{
    let mut out: Vec<Formula> = Vec::new();
    let mut vars: Vec<Variable> = Vec::new();
    let mut i: usize = 0;
    proof {
        assert(formulas_view(fs@.take(0)) =~= Seq::<FormulaV>::empty());
        assert(formulas_view(out@) =~= Seq::<FormulaV>::empty());
        assert(names(vars@) =~= Seq::<Seq<char>>::empty());
    }
    while i < fs.len()
        invariant
            i <= fs.len(),
            names(vars@).no_duplicates(),
            forall|k: int|
                0 <= k < formulas_view(out@).len() ==> flat_member(#[trigger] formulas_view(out@)[k], conj) && simplified(
                    formulas_view(out@)[k],
                ),
            forall|ops: Seq<Operation>, env: Seq<(Seq<char>, i64)>|
                #[trigger] list_sat(formulas_view(out@), conj, ops, env) == list_sat(
                    formulas_view(fs@.take(i as int)),
                    conj,
                    ops,
                    env,
                ),
        decreases fs.len() - i,
    {
        proof {
            assert(decreases_to!(fs => fs[i as int]));
            lemma_formulas_view_step(fs@, i as int);
        }
        let ghost fi = formula_view(fs@[i as int]);
        let ghost before = formulas_view(out@);
        let ghost pre = formulas_view(fs@.take(i as int));
        let ghost post = formulas_view(fs@.take(i + 1));
        let s = fs[i].simplify_ast();
        let ghost sv = formula_view(s);
        proof {
            assert(post == pre.push(fi));
        }
        match s {
            Formula::True(v) => {
                if conj {
                    extend_vars(&mut vars, &v);
                    proof {
                        assert forall|ops: Seq<Operation>, env: Seq<(Seq<char>, i64)>|
                            #[trigger] list_sat(formulas_view(out@), conj, ops, env) == list_sat(post, conj, ops, env) by {
                            lemma_list_step(pre, fi, conj, ops, env);
                            assert(list_sat(before, conj, ops, env) == list_sat(pre, conj, ops, env));
                            assert(sat(sv, ops, env) == sat(fi, ops, env));
                        }
                    }
                } else {
                    proof {
                        assert forall|ops: Seq<Operation>, env: Seq<(Seq<char>, i64)>|
                            #[trigger] sat(formula_view(Formula::True(v)), ops, env) == list_sat(
                                formulas_view(fs@),
                                conj,
                                ops,
                                env,
                            ) by {
                            assert(sat(sv, ops, env) == sat(fi, ops, env));
                            lemma_all_any_sat(formulas_view(fs@), ops, env);
                            lemma_formulas_view(fs@);
                            assert(formulas_view(fs@)[i as int] == fi);
                        }
                    }
                    return Formula::True(v);
                }
            },
            Formula::False(v) => {
                if conj {
                    proof {
                        assert forall|ops: Seq<Operation>, env: Seq<(Seq<char>, i64)>|
                            #[trigger] sat(formula_view(Formula::False(v)), ops, env) == list_sat(
                                formulas_view(fs@),
                                conj,
                                ops,
                                env,
                            ) by {
                            assert(sat(sv, ops, env) == sat(fi, ops, env));
                            lemma_all_any_sat(formulas_view(fs@), ops, env);
                            lemma_formulas_view(fs@);
                            assert(formulas_view(fs@)[i as int] == fi);
                        }
                    }
                    return Formula::False(v);
                } else {
                    extend_vars(&mut vars, &v);
                    proof {
                        assert forall|ops: Seq<Operation>, env: Seq<(Seq<char>, i64)>|
                            #[trigger] list_sat(formulas_view(out@), conj, ops, env) == list_sat(post, conj, ops, env) by {
                            lemma_list_step(pre, fi, conj, ops, env);
                            assert(list_sat(before, conj, ops, env) == list_sat(pre, conj, ops, env));
                            assert(sat(sv, ops, env) == sat(fi, ops, env));
                        }
                    }
                }
            },
            Formula::And(inner) if conj => {
                union_formulas(&mut out, &inner);
                proof {
                    assert(simplified(sv));
                    lemma_members_simplified(formulas_view(inner@), conj);
                    assert forall|k: int| 0 <= k < formulas_view(out@).len() implies flat_member(
                        #[trigger] formulas_view(out@)[k],
                        conj,
                    ) && simplified(formulas_view(out@)[k]) by {
                        let x = formulas_view(out@)[k];
                        assert(formulas_view(out@).contains(x));
                        lemma_set_union_from(before, formulas_view(inner@), x);
                        if before.contains(x) {
                            let w = choose|w: int| 0 <= w < before.len() && before[w] == x;
                        } else {
                            let w = choose|w: int| 0 <= w < formulas_view(inner@).len() && formulas_view(inner@)[w] == x;
                        }
                    }
                    assert forall|ops: Seq<Operation>, env: Seq<(Seq<char>, i64)>|
                        #[trigger] list_sat(formulas_view(out@), conj, ops, env) == list_sat(post, conj, ops, env) by {
                        lemma_sat_union(before, formulas_view(inner@), ops, env);
                        lemma_list_step(pre, fi, conj, ops, env);
                        assert(list_sat(before, conj, ops, env) == list_sat(pre, conj, ops, env));
                        assert(sat(sv, ops, env) == sat(fi, ops, env));
                    }
                }
            },
            Formula::Or(inner) if !conj => {
                union_formulas(&mut out, &inner);
                proof {
                    assert(simplified(sv));
                    lemma_members_simplified(formulas_view(inner@), conj);
                    assert forall|k: int| 0 <= k < formulas_view(out@).len() implies flat_member(
                        #[trigger] formulas_view(out@)[k],
                        conj,
                    ) && simplified(formulas_view(out@)[k]) by {
                        let x = formulas_view(out@)[k];
                        assert(formulas_view(out@).contains(x));
                        lemma_set_union_from(before, formulas_view(inner@), x);
                        if before.contains(x) {
                            let w = choose|w: int| 0 <= w < before.len() && before[w] == x;
                        } else {
                            let w = choose|w: int| 0 <= w < formulas_view(inner@).len() && formulas_view(inner@)[w] == x;
                        }
                    }
                    assert forall|ops: Seq<Operation>, env: Seq<(Seq<char>, i64)>|
                        #[trigger] list_sat(formulas_view(out@), conj, ops, env) == list_sat(post, conj, ops, env) by {
                        lemma_sat_union(before, formulas_view(inner@), ops, env);
                        lemma_list_step(pre, fi, conj, ops, env);
                        assert(list_sat(before, conj, ops, env) == list_sat(pre, conj, ops, env));
                        assert(sat(sv, ops, env) == sat(fi, ops, env));
                    }
                }
            },
            other => {
                let fv = other.free_vars();
                extend_vars(&mut vars, &fv);
                insert_formula(&mut out, other);
                proof {
                    assert(flat_member(sv, conj));
                    assert forall|k: int| 0 <= k < formulas_view(out@).len() implies flat_member(
                        #[trigger] formulas_view(out@)[k],
                        conj,
                    ) && simplified(formulas_view(out@)[k]) by {
                        if k < before.len() {
                            assert(formulas_view(out@)[k] == before[k]);
                        } else {
                            assert(formulas_view(out@)[k] == sv);
                        }
                    }
                    assert forall|ops: Seq<Operation>, env: Seq<(Seq<char>, i64)>|
                        #[trigger] list_sat(formulas_view(out@), conj, ops, env) == list_sat(post, conj, ops, env) by {
                        lemma_sat_insert(before, sv, ops, env);
                        lemma_list_step(pre, fi, conj, ops, env);
                        assert(list_sat(before, conj, ops, env) == list_sat(pre, conj, ops, env));
                        assert(sat(sv, ops, env) == sat(fi, ops, env));
                    }
                }
            },
        }
        i += 1;
    }
    proof {
        assert(fs@.take(fs.len() as int) =~= fs@);
        assert forall|ops: Seq<Operation>, env: Seq<(Seq<char>, i64)>|
            #[trigger] list_sat(formulas_view(out@), conj, ops, env) == list_sat(formulas_view(fs@), conj, ops, env) by {
            assert(list_sat(formulas_view(out@), conj, ops, env) == list_sat(formulas_view(fs@.take(fs.len() as int)), conj, ops, env));
        }
    }
    let ghost ov = formulas_view(out@);
    if out.len() == 0 {
        let r = if conj {
            Formula::True(vars)
        } else {
            Formula::False(vars)
        };
        proof {
            assert forall|ops: Seq<Operation>, env: Seq<(Seq<char>, i64)>|
                #[trigger] sat(formula_view(r), ops, env) == list_sat(formulas_view(fs@), conj, ops, env) by {
                assert(ov =~= Seq::<FormulaV>::empty());
                assert(list_sat(ov, conj, ops, env) == list_sat(formulas_view(fs@), conj, ops, env));
            }
        }
        r
    } else if out.len() == 1 {
        proof {
            lemma_formulas_view(out@);
        }
        let last = out.pop().unwrap();
        proof {
            assert(ov[0] == formula_view(last));
            assert(simplified(ov[0]));
            assert forall|ops: Seq<Operation>, env: Seq<(Seq<char>, i64)>|
                #[trigger] sat(formula_view(last), ops, env) == list_sat(formulas_view(fs@), conj, ops, env) by {
                lemma_all_any_sat(ov, ops, env);
                assert(list_sat(ov, conj, ops, env) == list_sat(formulas_view(fs@), conj, ops, env));
            }
        }
        last
    } else {
        proof {
            lemma_formulas_view(out@);
            lemma_members_simplified(ov, conj);
        }
        let r = if conj {
            Formula::And(out)
        } else {
            Formula::Or(out)
        };
        proof {
            assert forall|ops: Seq<Operation>, env: Seq<(Seq<char>, i64)>|
                #[trigger] sat(formula_view(r), ops, env) == list_sat(formulas_view(fs@), conj, ops, env) by {
                assert(list_sat(ov, conj, ops, env) == list_sat(formulas_view(fs@), conj, ops, env));
            }
        }
        r
    }
}

/// Names in strictly increasing order.
pub open spec fn strictly_sorted(ns: Seq<Seq<char>>) -> bool {
    forall|i: int, j: int| 0 <= i < j < ns.len() ==> seq_lt(#[trigger] ns[i], #[trigger] ns[j])
}

/// `ns` lists the variables of `f` in increasing order.
pub open spec fn is_declaration(ns: Seq<Seq<char>>, f: FormulaV) -> bool {
    strictly_sorted(ns) && ns.to_set() == formula_vars(f)
}

/// Two increasing lists of the same names are equal.
pub proof fn lemma_sorted_unique(a: Seq<Seq<char>>, b: Seq<Seq<char>>)
    requires
        strictly_sorted(a),
        strictly_sorted(b),
        a.to_set() == b.to_set(),
    ensures
        a == b,
    decreases a.len(),
{
    if a.len() == 0 {
        if b.len() > 0 {
            assert(b.to_set().contains(b[0]));
        }
        assert(a =~= b);
    } else {
        assert(a.to_set().contains(a[0]));
        assert(b.len() > 0) by {
            if b.len() == 0 {
                assert(!b.to_set().contains(a[0]));
            }
        }
        assert(b.to_set().contains(b[0]));
        let ka = choose|k: int| 0 <= k < b.len() && b[k] == a[0];
        let kb = choose|k: int| 0 <= k < a.len() && a[k] == b[0];
        if a[0] != b[0] {
            assert(ka > 0 && kb > 0);
            assert(seq_lt(b[0], b[ka]));
            assert(seq_lt(a[0], a[kb]));
            lemma_seq_lt_total(a[0], b[0]);
        }
        let a1 = a.drop_first();
        let b1 = b.drop_first();
        assert(strictly_sorted(a1)) by {
            assert forall|i: int, j: int| 0 <= i < j < a1.len() implies seq_lt(#[trigger] a1[i], #[trigger] a1[j]) by {
                assert(a1[i] == a[i + 1] && a1[j] == a[j + 1]);
            }
        }
        assert(strictly_sorted(b1)) by {
            assert forall|i: int, j: int| 0 <= i < j < b1.len() implies seq_lt(#[trigger] b1[i], #[trigger] b1[j]) by {
                assert(b1[i] == b[i + 1] && b1[j] == b[j + 1]);
            }
        }
        assert forall|x: Seq<char>| #[trigger] a1.to_set().contains(x) <==> b1.to_set().contains(x) by {
            if a1.contains(x) {
                let i = choose|i: int| 0 <= i < a1.len() && a1[i] == x;
                assert(a[i + 1] == x);
                assert(seq_lt(a[0], x));
                lemma_seq_lt_irrefl(x);
                assert(b.to_set().contains(x));
                let j = choose|j: int| 0 <= j < b.len() && b[j] == x;
                assert(j != 0);
                assert(b1[j - 1] == x);
            }
            if b1.contains(x) {
                let i = choose|i: int| 0 <= i < b1.len() && b1[i] == x;
                assert(b[i + 1] == x);
                assert(seq_lt(b[0], x));
                lemma_seq_lt_irrefl(x);
                assert(a.to_set().contains(x));
                let j = choose|j: int| 0 <= j < a.len() && a[j] == x;
                assert(j != 0);
                assert(a1[j - 1] == x);
            }
        }
        assert(a1.to_set() =~= b1.to_set());
        lemma_sorted_unique(a1, b1);
        assert(a =~= b) by {
            assert(a =~= seq![a[0]] + a1);
            assert(b =~= seq![b[0]] + b1);
        }
    }
}

impl Formula {
    /// The variables of the formula in increasing order of name.
    pub fn implied_declaration(&self) -> (r: Vec<Variable>)
        ensures
            is_declaration(names(r@), formula_view(*self)),
            names(r@).no_duplicates(),
    {
        let fv = self.free_vars();
        let mut r: Vec<Variable> = Vec::new();
        let mut i: usize = 0;
        proof {
            assert(names(fv@.take(0)) =~= Seq::<Seq<char>>::empty());
            assert(names(r@) =~= Seq::<Seq<char>>::empty());
        }
        while i < fv.len()
            invariant
                i <= fv.len(),
                names(fv@).no_duplicates(),
                strictly_sorted(names(r@)),
                names(r@).to_set() == names(fv@.take(i as int)).to_set(),
                names(r@).len() == i,
            decreases fv.len() - i,
        {
            let x = fv[i].copy();
            // position of the first name greater than x
            let mut pos: usize = 0;
            while pos < r.len() && str_lt(r[pos].sym.as_str(), x.sym.as_str())
                invariant
                    pos <= r.len(),
                    forall|k: int| 0 <= k < pos ==> seq_lt(#[trigger] names(r@)[k], x.sym@),
                decreases r.len() - pos,
            {
                pos += 1;
            }
            let ghost before = names(r@);
            proof {
                // x is not yet present
                assert(names(fv@.take(i as int)) == names(fv@).take(i as int)) by {
                    assert(names(fv@.take(i as int)) =~= names(fv@).take(i as int));
                }
                assert(names(fv@)[i as int] == x.sym@);
                assert(!before.to_set().contains(x.sym@)) by {
                    if before.to_set().contains(x.sym@) {
                        let k = choose|k: int| 0 <= k < i && names(fv@).take(i as int)[k] == x.sym@;
                        assert(names(fv@)[k] == names(fv@)[i as int]);
                    }
                }
                if pos < r.len() {
                    assert(!seq_lt(before[pos as int], x.sym@));
                    assert(before.contains(before[pos as int]));
                    lemma_seq_lt_total(before[pos as int], x.sym@);
                    assert(seq_lt(x.sym@, before[pos as int]));
                }
            }
            r.insert(pos, x);
            proof {
                let after = names(r@);
                assert(after =~= before.insert(pos as int, x.sym@));
                assert forall|a: int, b: int| 0 <= a < b < after.len() implies seq_lt(#[trigger] after[a], #[trigger] after[b]) by {
                    if b < pos {
                        assert(after[a] == before[a] && after[b] == before[b]);
                    } else if b == pos {
                        assert(after[a] == before[a]);
                    } else if a == pos {
                        assert(after[b] == before[b - 1]);
                        if b - 1 > pos {
                            assert(seq_lt(before[pos as int], before[b - 1]));
                            lemma_seq_lt_trans(x.sym@, before[pos as int], before[b - 1]);
                        }
                    } else if a < pos {
                        assert(after[a] == before[a] && after[b] == before[b - 1]);
                        if pos < r.len() - 1 {
                            assert(seq_lt(before[a], x.sym@));
                            assert(seq_lt(x.sym@, before[pos as int]));
                            lemma_seq_lt_trans(before[a], x.sym@, before[pos as int]);
                            if b - 1 > pos {
                                lemma_seq_lt_trans(before[a], before[pos as int], before[b - 1]);
                            }
                        }
                    } else {
                        assert(after[a] == before[a - 1] && after[b] == before[b - 1]);
                    }
                }
                assert(names(fv@.take(i + 1)) =~= names(fv@.take(i as int)).push(x.sym@));
                lemma_push_to_set(names(fv@.take(i as int)), x.sym@);
                assert forall|y: Seq<char>| #[trigger] after.to_set().contains(y) <==> before.to_set().insert(x.sym@).contains(y) by {
                    if after.contains(y) {
                        let k = choose|k: int| 0 <= k < after.len() && after[k] == y;
                        if k < pos {
                            assert(before[k] == y);
                        } else if k > pos {
                            assert(before[k - 1] == y);
                        }
                    }
                    if before.contains(y) {
                        let k = choose|k: int| 0 <= k < before.len() && before[k] == y;
                        if k < pos {
                            assert(after[k] == y);
                        } else {
                            assert(after[k + 1] == y);
                        }
                    }
                    if y == x.sym@ {
                        assert(after[pos as int] == y);
                    }
                }
                assert(after.to_set() =~= before.to_set().insert(x.sym@));
            }
            i += 1;
        }
        proof {
            assert(fv@.take(fv.len() as int) =~= fv@);
            assert(names(r@).no_duplicates()) by {
                assert forall|a: int, b: int| 0 <= a < names(r@).len() && 0 <= b < names(r@).len() && a != b
                    implies names(r@)[a] != names(r@)[b] by {
                    if a < b {
                        assert(seq_lt(names(r@)[a], names(r@)[b]));
                        lemma_seq_lt_irrefl(names(r@)[a]);
                    } else {
                        assert(seq_lt(names(r@)[b], names(r@)[a]));
                        lemma_seq_lt_irrefl(names(r@)[b]);
                    }
                }
            }
        }
        r
    }
}

/// The assignment that gives the `i`-th name the `i`-th value.
pub open spec fn decl_env(vs: Seq<Seq<char>>, t: Seq<i64>) -> Seq<(Seq<char>, i64)> {
    Seq::new(vs.len(), |i: int| (vs[i], t[i]))
}

/// The first `a` coordinates of `t` (all of `t` when `a` is not smaller).
pub open spec fn truncate(t: Seq<i64>, a: nat) -> Seq<i64> {
    if a < t.len() {
        t.take(a as int)
    } else {
        t
    }
}

/// `s` belongs to the extension of `f` over `universe`, with declaration `vs` and
/// requested arity `arity`.
pub open spec fn in_extension(
    f: FormulaV,
    universe: Seq<i64>,
    ops: Seq<Operation>,
    vs: Seq<Seq<char>>,
    arity: Option<usize>,
    s: Seq<i64>,
) -> bool {
    match f {
        FormulaV::True(_) => match arity {
            Some(k) => is_tuple_over(s, universe, k as nat),
            None => false,
        },
        FormulaV::False(_) => false,
        _ => vs.len() > 0 && exists|t: Seq<i64>|
            is_tuple_over(t, universe, vs.len()) && sat(f, ops, decl_env(vs, t)) && s == truncate(
                t,
                match arity {
                    Some(k) => k as nat,
                    None => vs.len(),
                },
            ),
    }
}

/// Adds a tuple to a duplicate-free list of tuples unless present.
pub fn push_unique(rows: &mut Vec<Vec<i64>>, t: Vec<i64>)
    requires
        old(rows).deep_view().no_duplicates(),
    ensures
        final(rows).deep_view().no_duplicates(),
        forall|s: Seq<i64>| #[trigger] final(rows).deep_view().contains(s) <==> (old(rows).deep_view().contains(s) || s == t@),
{
    if !rows_contain(rows, t.as_slice()) {
        let ghost before = rows.deep_view();
        rows.push(t);
        proof {
            lemma_tuple_deep_view(t);
            assert(rows.deep_view() =~= before.push(t@));
            lemma_push_to_set(before, t@);
            assert forall|s: Seq<i64>| #[trigger] rows.deep_view().contains(s) <==> (before.contains(s) || s == t@) by {
                assert(rows.deep_view().to_set().contains(s) == rows.deep_view().contains(s));
            }
            assert forall|a: int, b: int| 0 <= a < rows.deep_view().len() && 0 <= b < rows.deep_view().len() && a != b
                implies rows.deep_view()[a] != rows.deep_view()[b] by {
                if a < before.len() && b < before.len() {
                } else if a < before.len() {
                    assert(before.contains(before[a]));
                } else {
                    assert(before.contains(before[b]));
                }
            }
        }
    }
}

/// The assignment of `t[i]` to the `i`-th variable.
pub fn make_env(vs: &Vec<Variable>, t: &Vec<i64>) -> (env: Vec<(Variable, i64)>)
    requires
        vs.len() == t.len(),
    ensures
        env_view(env@) == decl_env(names(vs@), t@),
{
    let mut env: Vec<(Variable, i64)> = Vec::new();
    let mut i: usize = 0;
    while i < vs.len()
        invariant
            i <= vs.len(),
            vs.len() == t.len(),
            env.len() == i,
            env_view(env@) == decl_env(names(vs@), t@).take(i as int),
        decreases vs.len() - i,
    {
        let c = vs[i].copy();
        let ghost before = env@;
        env.push((c, t[i]));
        proof {
            assert(names(vs@)[i as int] == vs@[i as int].sym@);
            assert forall|k: int| 0 <= k < i + 1 implies #[trigger] env_view(env@)[k] == decl_env(names(vs@), t@)[k] by {
                if k < i {
                    assert(env@[k] == before[k]);
                    assert(env_view(before)[k] == decl_env(names(vs@), t@).take(i as int)[k]);
                }
            }
        }
        i += 1;
        proof {
            assert(env_view(env@) =~= decl_env(names(vs@), t@).take(i as int));
        }
    }
    proof {
        assert(decl_env(names(vs@), t@).take(vs.len() as int) =~= decl_env(names(vs@), t@));
    }
    env
}

/// First `a` coordinates of a tuple (all of it when `a` is not smaller).
pub fn truncate_tuple(t: &Vec<i64>, a: usize) -> (r: Vec<i64>)
    ensures
        r@ == truncate(t@, a as nat),
{
    if a < t.len() {
        let mut r: Vec<i64> = Vec::new();
        let mut i: usize = 0;
        while i < a
            invariant
                i <= a < t.len(),
                r@ == t@.take(i as int),
            decreases a - i,
        {
            r.push(t[i]);
            i += 1;
            proof {
                assert(r@ =~= t@.take(i as int));
            }
        }
        r
    } else {
        copy_tuple(t.as_slice())
    }
}

impl Formula {
    /// The set of tuples that satisfy the formula: for `True`, all tuples of the
    /// requested arity (none without one); for `False`, none; otherwise the tuples
    /// over the declaration (variables in increasing order of name) that satisfy
    /// the formula, cut to the requested arity.
    pub fn extension(&self, model: &Model, arity: Option<usize>) -> (r: Vec<Vec<i64>>)
        requires
            ops_wf(model.operations@),
        ensures
            r.deep_view().no_duplicates(),
            forall|vs: Seq<Seq<char>>| is_declaration(vs, formula_view(*self)) ==> forall|s: Seq<i64>|
                #[trigger] r.deep_view().contains(s) <==> in_extension(
                    formula_view(*self),
                    model.universe@,
                    model.operations@,
                    vs,
                    arity,
                    s,
                ),
    {
        let vs = self.implied_declaration();
        let mut result: Vec<Vec<i64>> = Vec::new();
        proof {
            assert(result.deep_view() =~= Seq::<Seq<i64>>::empty());
        }
        match self {
            Formula::True(_) => {
                match arity {
                    Some(k) => {
                        let all = cartesian_product(&model.universe, k);
                        let mut i: usize = 0;
                        while i < all.len()
                            invariant
                                i <= all.len(),
                                result.deep_view().no_duplicates(),
                                forall|s: Seq<i64>| #[trigger] result.deep_view().contains(s) <==> all.deep_view().take(i as int).contains(s),
                            decreases all.len() - i,
                        {
                            let t = copy_tuple(all[i].as_slice());
                            push_unique(&mut result, t);
                            proof {
                                lemma_tuple_deep_view(all@[i as int]);
                                assert(all.deep_view().take(i + 1) =~= all.deep_view().take(i as int).push(t@));
                                lemma_push_to_set(all.deep_view().take(i as int), t@);
                                assert forall|s: Seq<i64>| #[trigger] result.deep_view().contains(s) <==> all.deep_view().take(i + 1).contains(s) by {
                                    assert(all.deep_view().take(i + 1).to_set().contains(s) == all.deep_view().take(i + 1).contains(s));
                                    assert(all.deep_view().take(i as int).to_set().contains(s) == all.deep_view().take(i as int).contains(s));
                                }
                            }
                            i += 1;
                        }
                        proof {
                            assert(all.deep_view().take(all.len() as int) =~= all.deep_view());
                            assert forall|s: Seq<i64>| #[trigger] result.deep_view().contains(s) <==> is_tuple_over(s, model.universe@, k as nat) by {
                                if all.deep_view().contains(s) {
                                    let w = choose|w: int| 0 <= w < all.deep_view().len() && all.deep_view()[w] == s;
                                }
                            }
                        }
                    },
                    None => {},
                }
                result
            },
            Formula::False(_) => result,
            _ => {
                if vs.len() == 0 {
                    proof {
                        assert forall|v2: Seq<Seq<char>>| is_declaration(v2, formula_view(*self)) implies v2.len() == 0 by {
                            lemma_sorted_unique(v2, names(vs@));
                        }
                    }
                    return result;
                }
                let a = match arity {
                    Some(k) => k,
                    None => vs.len(),
                };
                let n = vs.len();
                let all = cartesian_product(&model.universe, n);
                let ghost f = formula_view(*self);
                let ghost ns = names(vs@);
                let mut i: usize = 0;
                while i < all.len()
                    invariant
                        i <= all.len(),
                        n == vs.len(),
                        ns == names(vs@),
                        f == formula_view(*self),
                        ops_wf(model.operations@),
                        forall|k: int| 0 <= k < all.len() ==> is_tuple_over(#[trigger] all.deep_view()[k], model.universe@, n as nat),
                        result.deep_view().no_duplicates(),
                        forall|s: Seq<i64>| #[trigger] result.deep_view().contains(s) <==> exists|k: int|
                            0 <= k < i && sat(f, model.operations@, decl_env(ns, all.deep_view()[k])) && s == truncate(
                                all.deep_view()[k],
                                a as nat,
                            ),
                    decreases all.len() - i,
                {
                    proof {
                        lemma_tuple_deep_view(all@[i as int]);
                        assert(is_tuple_over(all.deep_view()[i as int], model.universe@, n as nat));
                    }
                    let env = make_env(&vs, &all[i]);
                    if self.satisfy(model, &env) {
                        let t = truncate_tuple(&all[i], a);
                        let ghost before = result.deep_view();
                        push_unique(&mut result, t);
                        proof {
                            assert forall|s: Seq<i64>| #[trigger] result.deep_view().contains(s) <==> exists|k: int|
                                0 <= k < i + 1 && sat(f, model.operations@, decl_env(ns, all.deep_view()[k])) && s == truncate(
                                    all.deep_view()[k],
                                    a as nat,
                                ) by {
                                if s == t@ {
                                    assert(sat(f, model.operations@, decl_env(ns, all.deep_view()[i as int])) && s == truncate(all.deep_view()[i as int], a as nat));
                                }
                                if exists|k: int|
                                    0 <= k < i + 1 && sat(f, model.operations@, decl_env(ns, all.deep_view()[k])) && s == truncate(
                                        all.deep_view()[k],
                                        a as nat,
                                    ) {
                                    let k = choose|k: int|
                                        0 <= k < i + 1 && sat(f, model.operations@, decl_env(ns, all.deep_view()[k])) && s == truncate(
                                            all.deep_view()[k],
                                            a as nat,
                                        );
                                    if k < i {
                                        assert(before.contains(s));
                                    }
                                }
                            }
                        }
                    } else {
                        proof {
                            assert forall|s: Seq<i64>| #[trigger] result.deep_view().contains(s) <==> exists|k: int|
                                0 <= k < i + 1 && sat(f, model.operations@, decl_env(ns, all.deep_view()[k])) && s == truncate(
                                    all.deep_view()[k],
                                    a as nat,
                                ) by {
                                if exists|k: int|
                                    0 <= k < i + 1 && sat(f, model.operations@, decl_env(ns, all.deep_view()[k])) && s == truncate(
                                        all.deep_view()[k],
                                        a as nat,
                                    ) {
                                    let k = choose|k: int|
                                        0 <= k < i + 1 && sat(f, model.operations@, decl_env(ns, all.deep_view()[k])) && s == truncate(
                                            all.deep_view()[k],
                                            a as nat,
                                        );
                                    assert(k != i);
                                }
                            }
                        }
                    }
                    i += 1;
                }
                proof {
                    assert forall|v2: Seq<Seq<char>>| is_declaration(v2, f) implies forall|s: Seq<i64>|
                        #[trigger] result.deep_view().contains(s) <==> in_extension(f, model.universe@, model.operations@, v2, arity, s) by {
                        lemma_sorted_unique(v2, ns);
                        assert forall|s: Seq<i64>| #[trigger] result.deep_view().contains(s) <==> in_extension(f, model.universe@, model.operations@, v2, arity, s) by {
                            if result.deep_view().contains(s) {
                                let k = choose|k: int|
                                    0 <= k < all.len() && sat(f, model.operations@, decl_env(ns, all.deep_view()[k])) && s == truncate(
                                        all.deep_view()[k],
                                        a as nat,
                                    );
                                assert(is_tuple_over(all.deep_view()[k], model.universe@, n as nat));
                            }
                            if in_extension(f, model.universe@, model.operations@, v2, arity, s) {
                                let t = choose|t: Seq<i64>|
                                    is_tuple_over(t, model.universe@, v2.len()) && sat(f, model.operations@, decl_env(v2, t)) && s == truncate(
                                        t,
                                        match arity {
                                            Some(k) => k as nat,
                                            None => v2.len(),
                                        },
                                    );
                                assert(all.deep_view().contains(t));
                                let k = choose|k: int| 0 <= k < all.deep_view().len() && all.deep_view()[k] == t;
                            }
                        }
                    }
                }
                result
            },
        }
    }
}

} // verus!
