use std::hash::{Hash, Hasher};
use opendefalgsplitting::engines::dispatch::{check_engine, enumerates_tuples, EngineKind, FragmentKind};
use opendefalgsplitting::first_order::formulas::{copy_formula, eq, false_formula, true_formula, Formula, OpSym, Term, Variable};
use opendefalgsplitting::first_order::models::Model;
use opendefalgsplitting::first_order::relops::{Operation, Relation};
use opendefalgsplitting::hit::TupleHistory;
use opendefalgsplitting::parser::preprocess_targets;
use opendefalgsplitting::generator::CandidateGenerator;
use opendefalgsplitting::search::{name_position, part_blocks, search_step, SearchBlock, StepOutcome};
use opendefalgsplitting::splitting::{block_step, Block, Child};

fn var(name: &str) -> Term {
    Term::Variable(Variable::new(name))
}

fn swap_op() -> Operation {
    let mut f = Operation::new("f", 1);
    f.add(vec![0, 1]);
    f.add(vec![1, 0]);
    f.add(vec![2, 2]);
    f
}

fn histories(ts: &[Vec<i64>]) -> Vec<TupleHistory> {
    ts.iter().map(|t| TupleHistory::new(t.clone(), &[])).collect()
}

#[test]
fn block_step_splits_by_position_of_value() {
    // f swaps 0 and 1 and fixes 2.
    let f = swap_op();
    let b = Block { tuples: histories(&[vec![0], vec![1], vec![2]]), formula: true_formula(None) };
    let term = Term::OpTerm { sym: OpSym::new("f", 1), args: vec![var("x0")] };
    let names = vec![var("x0"), var("x1")];
    let parts = block_step(&b, &f, &[0], &term, &names);
    // 0 and 1 get a new value (position 1); 2 maps to itself (position 0).
    assert_eq!(parts.len(), 2);
    let old = parts.iter().find(|c| !c.generated).expect("old part");
    let new = parts.iter().find(|c| c.generated).expect("new part");
    assert_eq!(old.index, 0);
    assert_eq!(old.block.tuples.len(), 1);
    assert_eq!(old.block.tuples[0].t, vec![2]);
    assert_eq!(old.block.tuples[0].history, vec![2]);
    assert_eq!(new.index, 1);
    let mut ts: Vec<Vec<i64>> = new.block.tuples.iter().map(|th| th.history.clone()).collect();
    ts.sort();
    assert_eq!(ts, vec![vec![0, 1], vec![1, 0]]);
    // The old part says f(x0) = x0; the new part says f(x0) != x0.
    let m = Model::new(vec![0, 1, 2], Vec::new(), vec![swap_op()]);
    let ext_old = old.block.formula.extension(&m, Some(1));
    assert_eq!(ext_old, vec![vec![2]]);
    let mut ext_new = new.block.formula.extension(&m, Some(1));
    ext_new.sort();
    assert_eq!(ext_new, vec![vec![0], vec![1]]);
}

#[test]
fn block_step_single_part_keeps_formula() {
    let mut g = Operation::new("g", 1);
    g.add(vec![0, 0]);
    g.add(vec![1, 1]);
    let b = Block { tuples: histories(&[vec![0], vec![1]]), formula: true_formula(None) };
    let term = Term::OpTerm { sym: OpSym::new("g", 1), args: vec![var("x0")] };
    let names = vec![var("x0")];
    let parts = block_step(&b, &g, &[0], &term, &names);
    assert_eq!(parts.len(), 1);
    assert_eq!(parts[0].index, 0);
    assert!(!parts[0].generated);
    assert_eq!(parts[0].block.tuples.len(), 2);
    assert!(matches!(parts[0].block.formula, Formula::True(_)));
}

#[test]
fn simplify_ast_gives_normal_form() {
    let x = var("x");
    let y = var("y");
    let e = eq(x, y);
    // Neg(Neg(e)) and (True /\ e) /\ (e /\ e) simplify to e.
    let nn = Formula::Neg(Box::new(Formula::Neg(Box::new(copy_formula(&e)))));
    let s = nn.simplify_ast();
    assert!(matches!(s, Formula::Eq(_, _)));
    let inner = Formula::And(vec![copy_formula(&e), copy_formula(&e)]);
    let f = Formula::And(vec![true_formula(None), inner]);
    assert!(matches!(f.simplify_ast(), Formula::Eq(_, _)));
    // Or(e, Or(e2, False)) flattens to one disjunction of two members.
    let e2 = eq(var("x"), var("z"));
    let g = Formula::Or(vec![copy_formula(&e), Formula::Or(vec![e2, false_formula(None)])]);
    match g.simplify_ast() {
        Formula::Or(fs) => {
            assert_eq!(fs.len(), 2);
            assert!(fs.iter().all(|m| matches!(m, Formula::Eq(_, _))));
        },
        _ => panic!("expected a disjunction"),
    }
}

#[test]
fn evaluate_error_names_unbound_variable() {
    let t = var("x7");
    match t.evaluate(&Vec::new(), &Vec::new()) {
        Err(e) => assert_eq!(e, "Variable x7 not bound"),
        Ok(v) => panic!("unexpected {}", v),
    }
    let mut f = Operation::new("f", 1);
    f.add(vec![0, 1]);
    let ft = Term::OpTerm { sym: OpSym::new("f", 1), args: vec![var("x")] };
    let env = vec![(Variable::new("x"), 5i64)];
    match ft.evaluate(&vec![f], &env) {
        Err(e) => assert_eq!(e, "Operation f undefined for args [5]"),
        Ok(v) => panic!("unexpected {}", v),
    }
    let gt = Term::OpTerm { sym: OpSym::new("g", 1), args: vec![var("x")] };
    match gt.evaluate(&Vec::new(), &env) {
        Err(e) => assert_eq!(e, "Operation g not found"),
        Ok(v) => panic!("unexpected {}", v),
    }
}

#[test]
fn refusals_hold_on_an_empty_universe() {
    let model = Model::new(Vec::new(), Vec::new(), Vec::new());
    let t = Relation::new("T", 2);
    assert!(!enumerates_tuples(&model, FragmentKind::Gf, EngineKind::Hit));
    assert!(enumerates_tuples(&model, FragmentKind::Fo, EngineKind::Auto));
    let cases = [
        (FragmentKind::Gf, EngineKind::Hit, "gf has no hit engine"),
        (FragmentKind::Gf, EngineKind::HomType, "gf has no hom_type engine"),
        (FragmentKind::Gf, EngineKind::Cert, "gf has no cert engine"),
        (FragmentKind::Qf, EngineKind::Ktypes, "qf has no ktypes engine"),
        (FragmentKind::Qf, EngineKind::HomType, "qf has no hom_type engine"),
        (FragmentKind::Qf, EngineKind::Cert, "qf has no cert engine"),
    ];
    for (frag, eng, msg) in cases {
        match check_engine(&model, &t, frag, eng, 1, 1) {
            Err(e) => assert_eq!(e, msg),
            other => panic!("unexpected {:?}", other),
        }
    }
}

#[test]
fn preprocessing_keeps_empty_targets_and_adds_every_piece() {
    let mut t = Relation::new("T", 2);
    t.add(vec![0, 0]);
    t.add(vec![0, 1]);
    t.add(vec![1, 0]);
    let e = Relation::new("T_empty", 2);
    let mut r = Relation::new("R", 1);
    r.add(vec![0]);
    let m = Model::new(vec![0, 1], vec![t, e, r], Vec::new());
    let p = preprocess_targets(m);
    let mut names: Vec<String> = p.relations.iter().map(|r| r.sym.clone()).collect();
    names.sort();
    assert_eq!(names, vec!["R".to_string(), "T_empty".to_string(), "T|0,1|a1".to_string(), "T|0|1|a2".to_string()]);
    let e2 = p.relations.iter().find(|r| r.sym == "T_empty").unwrap();
    assert!(e2.r.is_empty());
    assert_eq!(e2.arity, 2);
}

fn make_target(arity: usize, tuples: &[Vec<i64>]) -> Relation {
    let mut r = Relation::new("T0", arity);
    for t in tuples {
        r.add(t.clone());
    }
    r
}

#[test]
fn test_tuple_history_step_nuevo_elemento() {
    let target = make_target(2, &[vec![0, 0], vec![1, 1]]);
    let targets = [&target];
    let mut th = TupleHistory::new(vec![0, 0], &targets);
    let mut op = Operation::new("f", 2);
    op.add(vec![0, 0, 1]);
    op.add(vec![0, 1, 0]);
    op.add(vec![1, 0, 0]);
    op.add(vec![1, 1, 0]);
    let idx = th.step(&op, &[0, 1]);
    assert_eq!(idx, 2);
    assert!(th.has_generated);
}

#[test]
fn test_tuple_history_step_existente() {
    let target = make_target(2, &[vec![0, 0], vec![1, 1]]);
    let targets = [&target];
    let mut th = TupleHistory::new(vec![0, 0], &targets);
    let mut op = Operation::new("id", 1);
    op.add(vec![0, 0]);
    op.add(vec![1, 1]);
    let step_idx = th.step(&op, &[0]);
    assert!(step_idx == 0 || step_idx == 1);
    assert!(!th.has_generated);
}

#[test]
fn test_tuple_history_simulate_step() {
    let target = make_target(2, &[vec![0, 1]]);
    let targets = [&target];
    let th = TupleHistory::new(vec![0, 0], &targets);
    let mut op = Operation::new("f", 2);
    op.add(vec![0, 0, 1]);
    op.add(vec![0, 1, 0]);
    op.add(vec![1, 0, 0]);
    op.add(vec![1, 1, 1]);
    let (_, has_gen) = th.simulate_step(&op, &[0, 1]);
    assert!(has_gen);
    assert_eq!(th.history.len(), 2);
}

#[test]
fn test_tuple_history_eq_hash() {
    let target = make_target(1, &[vec![0]]);
    let targets = [&target];
    let a = TupleHistory::new(vec![0], &targets);
    let b = TupleHistory::new(vec![0], &targets);
    assert!(a.same(&b));
    let mut ha = std::collections::hash_map::DefaultHasher::new();
    let mut hb = std::collections::hash_map::DefaultHasher::new();
    a.hash(&mut ha);
    b.hash(&mut hb);
    assert_eq!(ha.finish(), hb.finish());
}

#[test]
fn generator_enumerates_waves() {
    // one binary operation; tuples of arity 1
    let mut g = CandidateGenerator::new(vec![2], vec![1], 1);
    assert_eq!(g.next_candidate(), Some((0, 0, vec![0, 0])));
    // a new value at position 1 joins the wave
    g.mark_new();
    // the next wave forces the positions of this one, {0, 1}: descending order
    assert_eq!(g.next_candidate(), Some((0, 0, vec![1, 1])));
    assert_eq!(g.next_candidate(), Some((0, 0, vec![1, 0])));
    assert_eq!(g.next_candidate(), Some((0, 0, vec![0, 1])));
    assert_eq!(g.next_candidate(), Some((0, 0, vec![0, 0])));
    assert_eq!(g.next_candidate(), None);
    assert!(g.finished);
}

#[test]
fn generator_starts_with_the_constants() {
    // a constant and a unary operation; tuples of arity 1
    let mut g = CandidateGenerator::new(vec![0, 1], vec![1, 1], 1);
    assert_eq!(g.next_candidate(), Some((0, 0, vec![])));
    assert_eq!(g.next_candidate(), Some((0, 0, vec![])));
    assert_eq!(g.next_candidate(), None);
}

#[test]
fn search_step_takes_the_first_useful_candidate() {
    // g fixes everything (useless); f swaps 0 and 1 (useful)
    let mut g_op = Operation::new("g", 1);
    g_op.add(vec![0, 0]);
    g_op.add(vec![1, 1]);
    g_op.add(vec![2, 2]);
    let ops = vec![vec![swap_op(), g_op]];
    let b = Block { tuples: histories(&[vec![0], vec![1], vec![2]]), formula: true_formula(None) };
    let mut gen = CandidateGenerator::new(vec![1], vec![2], 1);
    let names = vec![var("x0"), var("x1")];
    match search_step(&b, &mut gen, &ops, &names, 1, true) {
        StepOutcome::Parts(parts, gi, oi, ti, _term) => {
            assert_eq!((gi, oi, ti), (0, 0, vec![0]));
            assert_eq!(parts.len(), 2);
        },
        _ => panic!("expected a split"),
    }
    // without skipping, a useless candidate is taken as it comes
    let mut gen2 = CandidateGenerator::new(vec![1], vec![2], 1);
    let ops2 = {
        let mut g2 = Operation::new("g", 1);
        g2.add(vec![0, 0]);
        g2.add(vec![1, 1]);
        g2.add(vec![2, 2]);
        vec![vec![g2, swap_op()]]
    };
    match search_step(&b, &mut gen2, &ops2, &names, 1, false) {
        StepOutcome::Parts(parts, gi, oi, _ti, _term) => {
            assert_eq!((gi, oi), (0, 0));
            assert_eq!(parts.len(), 1);
        },
        _ => panic!("expected one part"),
    }
}

#[test]
fn search_step_reports_an_undefined_candidate() {
    let mut partial = Operation::new("p", 1);
    partial.add(vec![0, 0]);
    let ops = vec![vec![partial]];
    let b = Block { tuples: histories(&[vec![0], vec![1]]), formula: true_formula(None) };
    let mut gen = CandidateGenerator::new(vec![1], vec![1], 1);
    let names = vec![var("x0")];
    assert!(matches!(search_step(&b, &mut gen, &ops, &names, 1, true), StepOutcome::Undefined(0, 0, _)));
}

fn sym_of(t: &Term) -> String {
    match t {
        Term::Variable(v) => v.sym.clone(),
        Term::OpTerm { sym, .. } => sym.op.clone(),
    }
}

#[test]
fn name_position_pads_with_canonical_variables() {
    let mut names = vec![var("x0")];
    let term = Term::OpTerm { sym: OpSym::new("f", 1), args: vec![var("x0")] };
    name_position(&mut names, 2, &term);
    assert_eq!(names.len(), 3);
    assert_eq!(sym_of(&names[0]), "x0");
    assert_eq!(sym_of(&names[1]), Variable::from_index(1).sym);
    assert_eq!(sym_of(&names[2]), "f");
}

#[test]
fn part_blocks_mark_the_parts_with_a_new_value() {
    let sb = SearchBlock {
        block: Block { tuples: Vec::new(), formula: true_formula(None) },
        generator: CandidateGenerator::new(vec![1], vec![2], 1),
        names: vec![var("x0")],
    };
    let parts = vec![
        Child { block: Block { tuples: histories(&[vec![0]]), formula: true_formula(None) }, index: 0, generated: false },
        Child { block: Block { tuples: histories(&[vec![1]]), formula: true_formula(None) }, index: 1, generated: true },
    ];
    let term = Term::OpTerm { sym: OpSym::new("f", 1), args: vec![var("x0")] };
    let r = part_blocks(&sb, parts, &term, 1);
    assert_eq!(r.len(), 2);
    assert_eq!(r[0].block.tuples[0].t, vec![0]);
    assert_eq!(r[0].names.len(), 1);
    assert_eq!(r[0].generator.nuevos, sb.generator.nuevos);
    assert_eq!(r[1].names.len(), 2);
    assert_eq!(sym_of(&r[1].names[1]), "f");
    let mut expect = sb.generator.nuevos.clone();
    expect.push(sb.generator.viejos.len() + sb.generator.nuevos.len());
    assert_eq!(r[1].generator.nuevos, expect);
}
