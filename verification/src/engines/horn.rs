//! Horn fragment: positive-primitive purity first, then a budgeted search over
//! conjunctions of at most two equality-Horn clauses.

use vstd::prelude::*;

use crate::engines::dispatch::EngineOutcome;
use crate::engines::partition::{
    all_tuples, keyed_pure, keyed_split_pure, refused_error, tuples_refused, TuplePartition,
};
use crate::engines::terms::{
    groups_view, index_tuple_list, index_tuples, is_op_groups_min, lemma_index_tuples, lemma_op_groups_unique,
    op_groups, pp_type,
};
use crate::engines::types::{pp_byte_keys, pp_keys};
use crate::first_order::formulas::{
    and_spec, copy_formula, copy_term, eq, eq_spec, formula_eq, formula_view, formulas_view, in_extension,
    is_declaration, lemma_sorted_unique, names, neg_spec, ops_wf, or_spec, term_view, terms_view, var_name, Formula, FormulaV, OpSym, Term,
    TermV, Variable,
};
use crate::first_order::models::Model;
use crate::first_order::relops::{Operation, Relation};
use crate::strategy::{sat_pow, saturating_pow};
use crate::strs::{int_text, push_str, push_usize};
use crate::util::rows_contain;

verus! {

/// Largest target arity searched for Horn clauses.
pub const HORN_MAX_ARITY: usize = 4;

/// Largest universe searched for Horn clauses.
pub const HORN_MAX_UNIVERSE: usize = 8;

/// Number of seed clauses tried.
pub const HORN_MAX_CANDIDATES: usize = 48;

/// Budget of the search over pairs of clauses.
pub const HORN_MAX_BFS_COMBOS: usize = 128;

/// Depth of the terms in Horn atoms when there are operations.
pub const HORN_TERM_DEPTH_CAP: usize = 1;

/// The extension of `f` over the model, cut to the target's arity, is the target.
pub open spec fn matches_target(f: FormulaV, model: Model, target: Relation) -> bool {
    forall|vs: Seq<Seq<char>>|
        is_declaration(vs, f) ==> forall|s: Seq<i64>|
            #[trigger] in_extension(f, model.universe@, model.operations@, vs, Some(target.arity), s)
                <==> target.has(s)
}

/// `ev` lists the extension of `f` with declaration `vs`, cut to `arity`.
pub open spec fn ext_is(ev: Seq<Seq<i64>>, f: FormulaV, model: Model, arity: usize, vs: Seq<Seq<char>>) -> bool {
    forall|t: Seq<i64>| #[trigger] ev.contains(t) <==> in_extension(f, model.universe@, model.operations@, vs, Some(arity), t)
}

/// Tells whether the formula defines exactly the target.
pub fn formula_matches(model: &Model, target: &Relation, formula: &Formula) -> (r: bool)
    requires
        ops_wf(model.operations@),
    ensures
        r == matches_target(formula_view(*formula), *model, *target),
{
    let ext = formula.extension(model, Some(target.arity));
    let decl = formula.implied_declaration();
    let ghost vs0 = names(decl@);
    let ghost ev = ext.deep_view();
    proof {
        assert(ext_is(ev, formula_view(*formula), *model, target.arity, vs0));
    }
    let mut i: usize = 0;
    while i < ext.len()
        invariant
            i <= ext.len(),
            ev == ext.deep_view(),
            is_declaration(vs0, formula_view(*formula)),
            ext_is(ev, formula_view(*formula), *model, target.arity, vs0),
            forall|k: int| 0 <= k < i ==> target.has(#[trigger] ev[k]),
        decreases ext.len() - i,
    {
        proof {
            assert(ev[i as int] == ext@[i as int]@);
        }
        if !target.contains(ext[i].as_slice()) {
            proof {
                lemma_not_matches(model, target, formula, ev, ev[i as int], vs0);
            }
            return false;
        }
        i += 1;
    }
    let mut j: usize = 0;
    while j < target.r.len()
        invariant
            j <= target.r.len(),
            ev == ext.deep_view(),
            is_declaration(vs0, formula_view(*formula)),
            ext_is(ev, formula_view(*formula), *model, target.arity, vs0),
            forall|k: int| 0 <= k < ext.len() ==> target.has(#[trigger] ev[k]),
            forall|k: int| 0 <= k < j ==> ev.contains(#[trigger] target.rows()[k]),
        decreases target.r.len() - j,
    {
        proof {
            assert(target.rows()[j as int] == target.r@[j as int]@);
        }
        if !rows_contain(&ext, target.r[j].as_slice()) {
            proof {
                assert(target.has(target.rows()[j as int]));
                lemma_not_matches(model, target, formula, ev, target.rows()[j as int], vs0);
            }
            return false;
        }
        j += 1;
    }
    proof {
        assert forall|s: Seq<i64>| ev.contains(s) <==> target.has(s) by {
            if ev.contains(s) {
                let k = choose|k: int| 0 <= k < ev.len() && ev[k] == s;
                assert(target.has(ev[k]));
            }
            if target.has(s) {
                let k = choose|k: int| 0 <= k < target.rows().len() && target.rows()[k] == s;
                assert(ev.contains(target.rows()[k]));
            }
        }
        assert forall|vs: Seq<Seq<char>>| is_declaration(vs, formula_view(*formula)) implies forall|t: Seq<i64>|
            #[trigger] in_extension(formula_view(*formula), model.universe@, model.operations@, vs, Some(target.arity), t)
                <==> target.has(t) by {
            lemma_sorted_unique(vs, vs0);
            assert forall|t: Seq<i64>|
                #[trigger] in_extension(formula_view(*formula), model.universe@, model.operations@, vs, Some(target.arity), t)
                    <==> target.has(t) by {
                assert(ev.contains(t) == target.has(t));
            }
        }
    }
    true
}

proof fn lemma_not_matches(
    model: &Model,
    target: &Relation,
    formula: &Formula,
    ev: Seq<Seq<i64>>,
    s: Seq<i64>,
    vs: Seq<Seq<char>>,
)
    requires
        is_declaration(vs, formula_view(*formula)),
        ext_is(ev, formula_view(*formula), *model, target.arity, vs),
        ev.contains(s) != target.has(s),
    ensures
        !matches_target(formula_view(*formula), *model, *target),
{
    let f = formula_view(*formula);
    assert(ev.contains(s) == in_extension(f, model.universe@, model.operations@, vs, Some(target.arity), s));
}

/// The variables `x_0 .. x_{n-1}` as terms.
pub open spec fn var_term_views(n: nat) -> Seq<TermV> {
    Seq::new(n, |i: int| TermV::Var(var_name(i)))
}

/// The operation is applied over the base terms: it has positive arity at most
/// two and at most 64 argument tuples.
pub open spec fn applied(base_len: nat, g: (Seq<char>, nat)) -> bool {
    g.1 != 0 && !(g.1 > 2 || sat_pow(base_len as u64, g.1) > 64)
}

/// Terms contributed by one operation: the constant itself, or the operation
/// over every argument tuple of base terms when it is applied, or nothing.
pub open spec fn shallow_step(base: Seq<TermV>, g: (Seq<char>, nat)) -> Seq<TermV> {
    if g.1 == 0 {
        seq![TermV::Op(g.0, 0, Seq::empty())]
    } else if applied(base.len(), g) {
        index_tuples(base.len() as usize, g.1).map_values(
            |it: Seq<usize>| TermV::Op(g.0, g.1, it.map_values(|i: usize| base[i as int])),
        )
    } else {
        Seq::empty()
    }
}

/// Terms from the operations `gs` in order, after `acc`; stops once an applied
/// operation takes the list past 32 terms.
pub open spec fn shallow_from(base: Seq<TermV>, gs: Seq<(Seq<char>, nat)>, acc: Seq<TermV>) -> Seq<TermV>
    decreases gs.len(),
{
    if gs.len() == 0 {
        acc
    } else {
        let acc2 = acc + shallow_step(base, gs[0]);
        if applied(base.len(), gs[0]) && acc2.len() > 32 {
            acc2
        } else {
            shallow_from(base, gs.drop_first(), acc2)
        }
    }
}

/// Terms for Horn atoms: the variables, then, with depth and operations, one
/// layer of operations by arity and name.
pub open spec fn shallow_spec(ops: Seq<Operation>, arity: nat, depth: nat) -> Seq<TermV> {
    let base = var_term_views(arity);
    if depth == 0 || ops.len() == 0 {
        base
    } else {
        shallow_from(base, choose|gs: Seq<(Seq<char>, nat)>| is_op_groups_min(gs, ops, 0), base)
    }
}

/// The variables `x_0 .. x_{arity-1}` as terms.
fn var_terms(arity: usize) -> (r: Vec<Term>)
    requires
        arity <= i32::MAX,
    ensures
        terms_view(r@) == var_term_views(arity as nat),
{
    let mut r: Vec<Term> = Vec::new();
    let mut i: usize = 0;
    proof {
        assert(terms_view(r@) =~= var_term_views(0));
    }
    while i < arity
        invariant
            i <= arity <= i32::MAX,
            terms_view(r@) == var_term_views(arity as nat).take(i as int),
        decreases arity - i,
    {
        let v = Variable::from_index(i as i32);
        let ghost before = r@;
        let t = Term::Variable(v);
        proof {
            lemma_terms_view_push(before, t);
        }
        r.push(t);
        proof {
            assert(terms_view(r@) =~= var_term_views(arity as nat).take(i + 1));
        }
        i += 1;
    }
    proof {
        assert(var_term_views(arity as nat).take(arity as int) =~= var_term_views(arity as nat));
    }
    r
}

/// Copies of the terms `base[it[0]], base[it[1]], ..`.
fn pick_terms(base: &Vec<Term>, it: &Vec<usize>) -> (r: Vec<Term>)
    requires
        forall|k: int| 0 <= k < it.len() ==> (#[trigger] it@[k]) < base.len(),
    ensures
        terms_view(r@) == it@.map_values(|i: usize| terms_view(base@)[i as int]),
{
    let mut r: Vec<Term> = Vec::new();
    let mut k: usize = 0;
    proof {
        crate::first_order::formulas::lemma_terms_view(base@);
        assert(terms_view(r@) =~= it@.take(0).map_values(|i: usize| terms_view(base@)[i as int]));
    }
    while k < it.len()
        invariant
            k <= it.len(),
            forall|x: int| 0 <= x < it.len() ==> (#[trigger] it@[x]) < base.len(),
            terms_view(base@).len() == base.len(),
            terms_view(r@) == it@.take(k as int).map_values(|i: usize| terms_view(base@)[i as int]),
        decreases it.len() - k,
    {
        let t = copy_term(&base[it[k]]);
        let ghost before = r@;
        proof {
            lemma_terms_view_push(before, t);
        }
        r.push(t);
        proof {
            lemma_terms_view_index(base@, it@[k as int] as int);
            assert(terms_view(r@) =~= it@.take(k + 1).map_values(|i: usize| terms_view(base@)[i as int]));
        }
        k += 1;
    }
    proof {
        assert(it@.take(it.len() as int) =~= it@);
    }
    r
}

proof fn lemma_terms_view_push(s: Seq<Term>, t: Term)
    ensures
        terms_view(s.push(t)) == terms_view(s).push(term_view(t)),
{
    assert(s.push(t).drop_last() =~= s);
}

proof fn lemma_terms_view_index(s: Seq<Term>, i: int)
    requires
        0 <= i < s.len(),
    ensures
        terms_view(s)[i] == term_view(s[i]),
    decreases s.len(),
{
    crate::first_order::formulas::lemma_terms_view(s);
    if i < s.len() - 1 {
        lemma_terms_view_index(s.drop_last(), i);
        crate::first_order::formulas::lemma_terms_view(s.drop_last());
    }
}

/// Terms for Horn atoms: the variables, and with depth and operations one layer
/// of operations, by arity and name.
pub fn shallow_terms(model: &Model, arity: usize, max_depth: usize) -> (r: Vec<Term>)
    requires
        model.wf(),
        arity <= i32::MAX,
    ensures
        terms_view(r@) == shallow_spec(model.operations@, arity as nat, max_depth as nat),
{
    let mut terms = var_terms(arity);
    if max_depth == 0 || model.operations.len() == 0 {
        return terms;
    }
    let base = var_terms(arity);
    let ghost bv = terms_view(base@);
    let groups = op_groups(&model.operations, 0);
    proof {
        assert(terms_view(terms@) == bv);
    }
    let ghost gv = groups_view(groups@);
    proof {
        crate::first_order::formulas::lemma_terms_view(base@);
    }
    let mut gi: usize = 0;
    proof {
        assert(gv.skip(0) =~= gv);
    }
    while gi < groups.len()
        invariant
            gi <= groups.len(),
            gv == groups_view(groups@),
            is_op_groups_min(gv, model.operations@, 0),
            max_depth != 0,
            model.operations.len() != 0,
            bv == var_term_views(arity as nat),
            bv == terms_view(base@),
            bv.len() == base.len(),
            base.len() == arity,
            shallow_from(bv, gv, bv) == shallow_from(bv, gv.skip(gi as int), terms_view(terms@)),
        decreases groups.len() - gi,
    {
        let sym = &groups[gi].0;
        let ar = groups[gi].1;
        let ghost g = gv[gi as int];
        let ghost gi0 = gi as int;
        let ghost acc = terms_view(terms@);
        proof {
            assert(g == (sym@, ar as nat));
            assert(gv.skip(gi as int)[0] == g);
            assert(gv.skip(gi as int).drop_first() =~= gv.skip(gi + 1));
        }
        if ar == 0 {
            let ghost before = terms@;
            let empty: Vec<Term> = Vec::new();
            proof {
                assert(terms_view(empty@) =~= Seq::<TermV>::empty());
            }
            let t = Term::OpTerm { sym: OpSym::new(sym.as_str(), 0), args: empty };
            proof {
                lemma_terms_view_push(before, t);
            }
            terms.push(t);
            proof {
                assert(terms_view(terms@) =~= acc + shallow_step(bv, g));
                assert(!applied(bv.len(), g));
            }
            gi += 1;
            continue;
        }
        if ar > 2 || saturating_pow(base.len() as u64, ar) > 64 {
            proof {
                assert(acc + shallow_step(bv, g) =~= acc);
                assert(!applied(bv.len(), g));
            }
            gi += 1;
            continue;
        }
        let tuples = index_tuple_list(base.len(), ar);
        let ghost step = shallow_step(bv, g);
        proof {
            lemma_index_tuples(base.len(), ar as nat);
            assert(step.len() == tuples.len());
            assert(terms_view(terms@) =~= acc + step.take(0));
        }
        let mut a: usize = 0;
        while a < tuples.len()
            invariant
                a <= tuples.len(),
                bv == terms_view(base@),
                bv.len() == base.len(),
                tuples.deep_view() == index_tuples(base.len(), ar as nat),
                forall|t: int| 0 <= t < tuples.len() ==> (#[trigger] tuples.deep_view()[t]).len() == ar
                    && forall|x: int| 0 <= x < ar ==> tuples.deep_view()[t][x] < base.len(),
                step == shallow_step(bv, g),
                step.len() == tuples.len(),
                g == (sym@, ar as nat),
                applied(bv.len(), g),
                terms_view(terms@) == acc + step.take(a as int),
            decreases tuples.len() - a,
        {
            proof {
                assert(tuples.deep_view()[a as int] == tuples@[a as int]@);
                assert forall|k: int| 0 <= k < tuples@[a as int].len() implies (#[trigger] tuples@[a as int]@[k]) < base.len() by {
                    assert(tuples.deep_view()[a as int][k] < base.len());
                }
            }
            let args = pick_terms(&base, &tuples[a]);
            let ghost before = terms@;
            let t = Term::OpTerm { sym: OpSym::new(sym.as_str(), ar), args };
            proof {
                lemma_terms_view_push(before, t);
            }
            terms.push(t);
            proof {
                assert(step[a as int] == TermV::Op(sym@, ar as nat, tuples@[a as int]@.map_values(|i: usize| bv[i as int])));
                assert(terms_view(terms@) =~= acc + step.take(a + 1));
            }
            a += 1;
        }
        proof {
            assert(step.take(tuples.len() as int) =~= step);
            assert(terms_view(terms@) == acc + shallow_step(bv, g));
            crate::first_order::formulas::lemma_terms_view(terms@);
        }
        gi += 1;
        if terms.len() > 32 {
            proof {
                assert(applied(bv.len(), g));
                assert(shallow_from(bv, gv.skip(gi0), acc) == terms_view(terms@));
                let gs = choose|gs: Seq<(Seq<char>, nat)>| is_op_groups_min(gs, model.operations@, 0);
                lemma_op_groups_unique(gs, gv, model.operations@, 0);
            }
            return terms;
        }
    }
    proof {
        assert(gv.skip(groups.len() as int) =~= Seq::<(Seq<char>, nat)>::empty());
        let gs = choose|gs: Seq<(Seq<char>, nat)>| is_op_groups_min(gs, model.operations@, 0);
        lemma_op_groups_unique(gs, gv, model.operations@, 0);
    }
    terms
}

/// Atoms `t_i = t_j` for `j` from `i` on.
pub open spec fn atom_line(ts: Seq<TermV>, i: int) -> Seq<FormulaV> {
    Seq::new((ts.len() - i) as nat, |k: int| eq_spec(ts[i], ts[i + k]))
}

/// Atom lines of the first `m` terms, concatenated.
pub open spec fn atoms_upto(ts: Seq<TermV>, m: int) -> Seq<FormulaV>
    decreases m,
{
    if m <= 0 {
        Seq::empty()
    } else {
        atoms_upto(ts, m - 1) + atom_line(ts, m - 1)
    }
}

/// Equality atoms `t_i = t_j` for all `i <= j`, in order.
pub open spec fn atoms_spec(ts: Seq<TermV>) -> Seq<FormulaV> {
    atoms_upto(ts, ts.len() as int)
}

proof fn lemma_formulas_view_push(s: Seq<Formula>, f: Formula)
    ensures
        formulas_view(s.push(f)) == formulas_view(s).push(formula_view(f)),
{
    assert(s.push(f).drop_last() =~= s);
}

/// Equality atoms over the terms.
fn equality_atoms(terms: &Vec<Term>) -> (r: Vec<Formula>)
    ensures
        formulas_view(r@) == atoms_spec(terms_view(terms@)),
{
    let ghost tv = terms_view(terms@);
    proof {
        crate::first_order::formulas::lemma_terms_view(terms@);
    }
    let mut atoms: Vec<Formula> = Vec::new();
    let mut i: usize = 0;
    proof {
        assert(formulas_view(atoms@) =~= atoms_upto(tv, 0));
    }
    while i < terms.len()
        invariant
            i <= terms.len(),
            tv == terms_view(terms@),
            tv.len() == terms.len(),
            formulas_view(atoms@) == atoms_upto(tv, i as int),
        decreases terms.len() - i,
    {
        let ghost start = formulas_view(atoms@);
        let mut j: usize = i;
        proof {
            assert(start + atom_line(tv, i as int).take(0) =~= start);
        }
        while j < terms.len()
            invariant
                i <= j <= terms.len(),
                tv == terms_view(terms@),
                tv.len() == terms.len(),
                formulas_view(atoms@) == start + atom_line(tv, i as int).take(j - i),
            decreases terms.len() - j,
        {
            let f = eq(copy_term(&terms[i]), copy_term(&terms[j]));
            let ghost before = atoms@;
            proof {
                lemma_formulas_view_push(before, f);
                lemma_terms_view_index(terms@, i as int);
                lemma_terms_view_index(terms@, j as int);
            }
            atoms.push(f);
            j += 1;
            proof {
                assert(formulas_view(atoms@) =~= start + atom_line(tv, i as int).take(j - i));
            }
        }
        proof {
            assert(atom_line(tv, i as int).take(j - i) =~= atom_line(tv, i as int));
        }
        i += 1;
    }
    atoms
}

/// Implications `ant -> atoms[c]`, as `-ant | atoms[c]`, for antecedents among
/// the first `m` atoms other than `atoms[c]`.
pub open spec fn ant_clauses(atoms: Seq<FormulaV>, c: int, m: int) -> Seq<FormulaV>
    decreases m,
{
    if m <= 0 {
        Seq::empty()
    } else {
        ant_clauses(atoms, c, m - 1) + if atoms[m - 1] == atoms[c] {
            Seq::empty()
        } else {
            seq![or_spec(neg_spec(atoms[m - 1]), atoms[c])]
        }
    }
}

/// Seed clauses of the first `m` consequents: each unit clause, then its implications.
pub open spec fn seeds_upto(atoms: Seq<FormulaV>, m: int) -> Seq<FormulaV>
    decreases m,
{
    if m <= 0 {
        Seq::empty()
    } else {
        seeds_upto(atoms, m - 1) + seq![atoms[m - 1]] + ant_clauses(atoms, m - 1, atoms.len() as int)
    }
}

/// Unit clauses and single-antecedent implications over the atoms.
pub open spec fn seeds_spec(atoms: Seq<FormulaV>) -> Seq<FormulaV> {
    seeds_upto(atoms, atoms.len() as int)
}

proof fn lemma_formulas_view_index(s: Seq<Formula>, i: int)
    requires
        0 <= i < s.len(),
    ensures
        formulas_view(s)[i] == formula_view(s[i]),
    decreases s.len(),
{
    crate::first_order::formulas::lemma_formulas_view(s);
    if i < s.len() - 1 {
        lemma_formulas_view_index(s.drop_last(), i);
        crate::first_order::formulas::lemma_formulas_view(s.drop_last());
    }
}

/// Unit clauses and single-antecedent implications over equality atoms.
fn horn_clause_seed(atoms: &Vec<Formula>) -> (r: Vec<Formula>)
    ensures
        formulas_view(r@) == seeds_spec(formulas_view(atoms@)),
{
    let ghost av = formulas_view(atoms@);
    proof {
        crate::first_order::formulas::lemma_formulas_view(atoms@);
    }
    let mut clauses: Vec<Formula> = Vec::new();
    let mut c: usize = 0;
    proof {
        assert(formulas_view(clauses@) =~= seeds_upto(av, 0));
    }
    while c < atoms.len()
        invariant
            c <= atoms.len(),
            av == formulas_view(atoms@),
            av.len() == atoms.len(),
            formulas_view(clauses@) == seeds_upto(av, c as int),
        decreases atoms.len() - c,
    {
        let ghost start = formulas_view(clauses@);
        let cons = &atoms[c];
        let unit = copy_formula(cons);
        proof {
            lemma_formulas_view_push(clauses@, unit);
            lemma_formulas_view_index(atoms@, c as int);
        }
        clauses.push(unit);
        let mut a: usize = 0;
        proof {
            assert(formulas_view(clauses@) =~= start + seq![av[c as int]] + ant_clauses(av, c as int, 0));
        }
        while a < atoms.len()
            invariant
                a <= atoms.len(),
                c < atoms.len(),
                cons == &atoms@[c as int],
                av == formulas_view(atoms@),
                av.len() == atoms.len(),
                av[c as int] == formula_view(*cons),
                formulas_view(clauses@) == start + seq![av[c as int]] + ant_clauses(av, c as int, a as int),
            decreases atoms.len() - a,
        {
            let ant = &atoms[a];
            proof {
                lemma_formulas_view_index(atoms@, a as int);
            }
            if !formula_eq(ant, cons) {
                let cl = ant.neg().or_formula(cons);
                proof {
                    lemma_formulas_view_push(clauses@, cl);
                }
                clauses.push(cl);
            }
            a += 1;
            proof {
                assert(formulas_view(clauses@) =~= start + seq![av[c as int]] + ant_clauses(av, c as int, a as int));
            }
        }
        c += 1;
    }
    clauses
}

/// Pairs of seeds before row `i` of the pair order over `l` seeds.
pub open spec fn pairs_before(l: int, i: int) -> int
    decreases i,
{
    if i <= 0 {
        0
    } else {
        pairs_before(l, i - 1) + (l - i)
    }
}

proof fn lemma_pairs_before_mono(l: int, a: int, b: int)
    requires
        0 <= a <= b <= l,
    ensures
        pairs_before(l, a) <= pairs_before(l, b),
    decreases b - a,
{
    if a < b {
        lemma_pairs_before_mono(l, a, b - 1);
    }
}

/// The conjunction of seeds `i < j` is tried within the budget.
pub open spec fn pair_tried(l: int, i: int, j: int) -> bool {
    0 <= i < j < l && pairs_before(l, i) + j < HORN_MAX_BFS_COMBOS
}

/// Number of seeds searched.
pub open spec fn seed_limit(n: nat) -> int {
    if n < HORN_MAX_CANDIDATES {
        n as int
    } else {
        HORN_MAX_CANDIDATES as int
    }
}

/// Some searched seed, or some conjunction of two searched seeds tried within
/// the budget, defines the target.
pub open spec fn bfs_found(seeds: Seq<FormulaV>, model: Model, target: Relation) -> bool {
    let l = seed_limit(seeds.len());
    (exists|k: int| 0 <= k < l && matches_target(#[trigger] seeds[k], model, target)) || (exists|i: int, j: int|
        pair_tried(l, i, j) && matches_target(and_spec(#[trigger] seeds[i], #[trigger] seeds[j]), model, target))
}

/// Budgeted search: each searched seed alone, then conjunctions of two seeds in
/// order while the budget lasts.
fn horn_bfs_find(model: &Model, target: &Relation, seeds: &Vec<Formula>) -> (r: bool)
    requires
        ops_wf(model.operations@),
    ensures
        r == bfs_found(formulas_view(seeds@), *model, *target),
{
    let ghost sv = formulas_view(seeds@);
    proof {
        crate::first_order::formulas::lemma_formulas_view(seeds@);
    }
    let limit = if seeds.len() < HORN_MAX_CANDIDATES {
        seeds.len()
    } else {
        HORN_MAX_CANDIDATES
    };
    let ghost l = limit as int;
    proof {
        assert(l == seed_limit(sv.len()));
    }
    let mut k: usize = 0;
    while k < limit
        invariant
            k <= limit <= seeds.len(),
            l == limit,
            l == seed_limit(sv.len()),
            ops_wf(model.operations@),
            sv == formulas_view(seeds@),
            sv.len() == seeds.len(),
            forall|x: int| 0 <= x < k ==> !matches_target(#[trigger] sv[x], *model, *target),
        decreases limit - k,
    {
        proof {
            lemma_formulas_view_index(seeds@, k as int);
        }
        if formula_matches(model, target, &seeds[k]) {
            proof {
                assert(l == seed_limit(sv.len()));
                assert(matches_target(sv[k as int], *model, *target));
            }
            return true;
        }
        k += 1;
    }
    let mut checked: usize = 0;
    let mut i: usize = 0;
    while i < limit
        invariant
            i <= limit <= seeds.len(),
            limit <= HORN_MAX_CANDIDATES,
            l == limit,
            l == seed_limit(sv.len()),
            ops_wf(model.operations@),
            sv == formulas_view(seeds@),
            sv.len() == seeds.len(),
            forall|x: int| 0 <= x < l ==> !matches_target(#[trigger] sv[x], *model, *target),
            checked == i + pairs_before(l, i as int),
            forall|a: int, b: int|
                0 <= a < i && pair_tried(l, a, b) ==> !matches_target(and_spec(#[trigger] sv[a], #[trigger] sv[b]), *model, *target),
        decreases limit - i,
    {
        if checked >= HORN_MAX_BFS_COMBOS {
            proof {
                assert forall|a: int, b: int| i <= a && pair_tried(l, a, b) implies false by {
                    lemma_pairs_before_mono(l, i as int, a);
                }
                assert(l == seed_limit(sv.len()));
                assert forall|a: int, b: int| pair_tried(l, a, b) implies !matches_target(
                    and_spec(#[trigger] sv[a], #[trigger] sv[b]),
                    *model,
                    *target,
                ) by {
                    if a >= i {
                        lemma_pairs_before_mono(l, i as int, a);
                    }
                }
            }
            return false;
        }
        checked += 1;
        let mut j: usize = i + 1;
        while j < limit
            invariant
                i < limit <= seeds.len(),
                limit <= HORN_MAX_CANDIDATES,
                i + 1 <= j <= limit,
                l == limit,
                l == seed_limit(sv.len()),
            l == seed_limit(sv.len()),
                ops_wf(model.operations@),
                sv == formulas_view(seeds@),
                sv.len() == seeds.len(),
                checked == pairs_before(l, i as int) + j,
                forall|x: int| 0 <= x < l ==> !matches_target(#[trigger] sv[x], *model, *target),
                forall|a: int, b: int|
                    0 <= a < i && pair_tried(l, a, b) ==> !matches_target(and_spec(#[trigger] sv[a], #[trigger] sv[b]), *model, *target),
                forall|b: int| i < b < j ==> !matches_target(and_spec(#[trigger] sv[i as int], #[trigger] sv[b]), *model, *target),
            decreases limit - j,
        {
            if checked >= HORN_MAX_BFS_COMBOS {
                proof {
                    assert(l == seed_limit(sv.len()));
                    assert forall|a: int, b: int| pair_tried(l, a, b) implies !matches_target(
                        and_spec(#[trigger] sv[a], #[trigger] sv[b]),
                        *model,
                        *target,
                    ) by {
                        if a > i {
                            lemma_pairs_before_mono(l, i + 1, a);
                            assert(pairs_before(l, i + 1) == pairs_before(l, i as int) + (l - i - 1));
                        }
                    }
                }
                return false;
            }
            let trial = seeds[i].and_formula(&seeds[j]);
            checked += 1;
            proof {
                lemma_formulas_view_index(seeds@, i as int);
                lemma_formulas_view_index(seeds@, j as int);
            }
            if formula_matches(model, target, &trial) {
                proof {
                    assert(l == seed_limit(sv.len()));
                    assert(pair_tried(l, i as int, j as int));
                    assert(matches_target(and_spec(sv[i as int], sv[j as int]), *model, *target));
                }
                return true;
            }
            j += 1;
        }
        proof {
            assert(pairs_before(l, i + 1) == pairs_before(l, i as int) + (l - i - 1));
        }
        i += 1;
    }
    proof {
        assert(l == seed_limit(sv.len()));
    }
    false
}

/// Depth used by the Horn engine: at least one.
pub open spec fn horn_depth(max_depth: nat) -> nat {
    if max_depth >= 1 {
        max_depth
    } else {
        1
    }
}

/// The target is a union of atomic-type classes at depth `d`.
pub open spec fn pp_pure(model: Model, target: Relation, d: nat) -> bool {
    let ts = all_tuples(model.universe@, target.arity as nat);
    keyed_pure(ts, pp_keys(model.operations@, ts, d), target)
}

/// Small enough for the clause search.
pub open spec fn horn_small(model: Model, arity: nat) -> bool {
    arity <= HORN_MAX_ARITY && model.universe.len() <= HORN_MAX_UNIVERSE && sat_pow(
        model.universe.len() as u64,
        arity,
    ) <= 4096
}

/// Depth of the terms in Horn atoms.
pub open spec fn horn_term_depth(model: Model, arity: nat, d: nat) -> nat {
    if model.operations.len() == 0 || model.universe.len() > 4 || arity > 3 {
        0
    } else if d < HORN_TERM_DEPTH_CAP {
        d
    } else {
        HORN_TERM_DEPTH_CAP as nat
    }
}

/// Seed clauses of the Horn search.
pub open spec fn horn_seeds(model: Model, arity: nat, d: nat) -> Seq<FormulaV> {
    seeds_spec(atoms_spec(shallow_spec(model.operations@, arity, horn_term_depth(model, arity, d))))
}

/// The clause search finds a definition of the target.
pub open spec fn horn_found(model: Model, target: Relation, d: nat) -> bool {
    horn_small(model, target.arity as nat) && bfs_found(horn_seeds(model, target.arity as nat, d), model, target)
}

/// Horn fragment: definable when the target is a union of atomic-type classes,
/// or else, on small models, when a budgeted search finds a conjunction of at
/// most two equality-Horn clauses that defines it.
pub fn check_horn(model: &Model, target: &Relation, max_depth: usize) -> (r: Result<EngineOutcome, String>)
    requires
        model.wf(),
        target.arity == 0 || model.universe.len() > 0,
    ensures
        ({
            let d = horn_depth(max_depth as nat);
            match r {
                Ok(out) => !tuples_refused(*model, target.arity as nat) && out.fragment@ == "horn"@
                    && out.witness_sketch is None && out.definable == (pp_pure(*model, *target, d) || horn_found(
                    *model,
                    *target,
                    d,
                )) && out.engine@ == if !pp_pure(*model, *target, d) && horn_found(*model, *target, d) {
                    "horn_clauses_bfs_d"@ + int_text(d as int)
                } else {
                    "horn_pp_d"@ + int_text(d as int)
                },
                Err(e) => tuples_refused(*model, target.arity as nat) && e@ == refused_error(*model, target.arity as nat),
            }
        }),
{
    let d = if max_depth >= 1 {
        max_depth
    } else {
        1
    };
    let partition = match TuplePartition::from_model(model, target.arity) {
        Ok(p) => p,
        Err(e) => return Err(e),
    };
    let mut blocks = partition.blocks;
    let ghost b0 = blocks@[0];
    proof {
        assert(blocks.deep_view().len() == blocks.len());
        assert(blocks.deep_view()[0] == b0.deep_view());
    }
    let tuples = blocks.pop().unwrap();
    let keys = pp_byte_keys(model, &tuples, d);
    let pure = keyed_split_pure(tuples, keys, target);
    let mut name_pp = String::new();
    push_str(&mut name_pp, "horn_pp_d");
    push_usize(&mut name_pp, d);
    if pure {
        return Ok(EngineOutcome::basic(true, "horn", name_pp.as_str()));
    }
    let u = model.universe.len();
    let ar = target.arity;
    if ar <= HORN_MAX_ARITY && u <= HORN_MAX_UNIVERSE && saturating_pow(u as u64, ar) <= 4096 {
        let term_depth = if model.operations.len() == 0 || u > 4 || ar > 3 {
            0
        } else if d < HORN_TERM_DEPTH_CAP {
            d
        } else {
            HORN_TERM_DEPTH_CAP
        };
        let terms = shallow_terms(model, ar, term_depth);
        let atoms = equality_atoms(&terms);
        let seeds = horn_clause_seed(&atoms);
        proof {
            assert(ops_wf(model.operations@));
        }
        if horn_bfs_find(model, target, &seeds) {
            let mut name = String::new();
            push_str(&mut name, "horn_clauses_bfs_d");
            push_usize(&mut name, d);
            return Ok(EngineOutcome::basic(true, "horn", name.as_str()));
        }
    }
    Ok(EngineOutcome::basic(false, "horn", name_pp.as_str()))
}

} // verus!
