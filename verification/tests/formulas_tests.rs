use std::collections::HashSet;

use opendefalgsplitting::first_order::formulas::{
    eq, false_formula, true_formula, variables, Formula, OpSym, Term, Variable,
};
use opendefalgsplitting::first_order::models::Model;
use opendefalgsplitting::first_order::relops::{Operation, Relation};

fn as_set(v: Vec<Vec<i64>>) -> HashSet<Vec<i64>> {
    v.into_iter().collect()
}

#[test]
fn test_eq_symmetry() {
    let m = Model::new(vec![0i64, 1], Vec::new(), Vec::new());
    let x = Term::Variable(Variable::new("x"));
    let y = Term::Variable(Variable::new("y"));
    let eq_xy = eq(x, y);
    let x2 = Term::Variable(Variable::new("x"));
    let y2 = Term::Variable(Variable::new("y"));
    let eq_yx = eq(y2, x2);
    let ext_xy = eq_xy.extension(&m, Some(2));
    let ext_yx = eq_yx.extension(&m, Some(2));
    assert_eq!(as_set(ext_xy), as_set(ext_yx));
}

#[test]
fn test_true_extension_total() {
    let m = Model::new(vec![0i64, 1, 2], Vec::new(), Vec::new());
    let f = true_formula(None);
    let ext = f.extension(&m, Some(2));
    let expected: HashSet<Vec<i64>> = (0..3).flat_map(|a| (0..3).map(move |b| vec![a, b])).collect();
    assert_eq!(as_set(ext), expected);
}

#[test]
fn test_false_extension_vacia() {
    let m = Model::new(vec![0i64, 1], Vec::new(), Vec::new());
    let f = false_formula(None);
    let ext = f.extension(&m, Some(2));
    assert!(ext.is_empty());
}

#[test]
fn variable_names_use_subscripts() {
    let vs = variables(&[0, 1, 12]);
    assert_eq!(vs[0].sym, "x\u{2080}");
    assert_eq!(vs[1].sym, "x\u{2081}");
    assert_eq!(vs[2].sym, "x\u{2081}\u{2082}");
    assert_eq!(Variable::from_index(-3).sym, "x\u{208B}\u{2083}");
}

#[test]
fn eq_of_same_term_is_true() {
    let x = Term::Variable(Variable::new("x"));
    let x2 = Term::Variable(Variable::new("x"));
    let f = eq(x, x2);
    assert!(matches!(f, Formula::True(_)));
}

#[test]
fn diagonal_extension_and_negation() {
    let m = Model::new(vec![0i64, 1, 2], Vec::new(), Vec::new());
    let vs = variables(&[0, 1]);
    let f = eq(Term::Variable(vs[0].copy()), Term::Variable(vs[1].copy()));
    let ext = as_set(f.extension(&m, Some(2)));
    let expected: HashSet<Vec<i64>> = (0..3).map(|a| vec![a, a]).collect();
    assert_eq!(ext, expected);
    let n = f.neg();
    let ext_n = as_set(n.extension(&m, Some(2)));
    assert_eq!(ext_n.len(), 6);
    assert!(!ext_n.contains(&vec![1, 1]));
    // double negation gives back the atom
    let nn = n.neg();
    assert_eq!(as_set(nn.extension(&m, Some(2))), expected);
}

#[test]
fn and_or_fold_constants_and_flatten() {
    let vs = variables(&[0, 1, 2]);
    let a = eq(Term::Variable(vs[0].copy()), Term::Variable(vs[1].copy()));
    let b = eq(Term::Variable(vs[1].copy()), Term::Variable(vs[2].copy()));
    let t = true_formula(None);
    let f = false_formula(None);
    assert!(matches!(t.and_formula(&a), Formula::Eq(_, _)));
    assert!(matches!(f.and_formula(&a), Formula::False(_)));
    assert!(matches!(f.or_formula(&a), Formula::Eq(_, _)));
    assert!(matches!(t.or_formula(&a), Formula::True(_)));
    let ab = a.and_formula(&b);
    match &ab {
        Formula::And(fs) => assert_eq!(fs.len(), 2),
        _ => panic!("expected a conjunction"),
    }
    // a and not a collapses to False
    assert!(matches!(a.and_formula(&a.neg()), Formula::False(_)));
    assert!(matches!(a.or_formula(&a.neg()), Formula::True(_)));
    // conjoining the same atom again keeps one copy
    match ab.and_formula(&a) {
        Formula::And(fs) => assert_eq!(fs.len(), 2),
        _ => panic!("expected a conjunction"),
    }
}

#[test]
fn evaluate_terms_with_operations() {
    let mut s = Operation::new("s", 1);
    s.add(vec![0, 1]);
    s.add(vec![1, 2]);
    let ops = vec![s];
    let x = Variable::new("x");
    let t = Term::OpTerm { sym: OpSym::new("s", 1), args: vec![Term::Variable(x.copy())] };
    let env = vec![(x.copy(), 0i64)];
    assert_eq!(t.evaluate(&ops, &env), Ok(1));
    let env2 = vec![(x.copy(), 2i64)];
    assert!(t.evaluate(&ops, &env2).is_err());
    assert_eq!(t.grade(), 1);
}

#[test]
fn simplify_keeps_meaning() {
    let m = Model::new(vec![0i64, 1], Vec::new(), Vec::new());
    let vs = variables(&[0, 1]);
    let a = Formula::Eq(Term::Variable(vs[0].copy()), Term::Variable(vs[1].copy()));
    let nn = Formula::Neg(Box::new(Formula::Neg(Box::new(a))));
    let f = Formula::And(vec![nn, Formula::True(Vec::new())]);
    let s = f.simplify_ast();
    assert!(matches!(s, Formula::Eq(_, _)));
    assert_eq!(as_set(s.extension(&m, Some(2))), as_set(f.extension(&m, Some(2))));
    assert!(s.ast_size() < f.ast_size());
}

#[test]
fn relation_add_and_restrict() {
    let r = Relation::new("R", 2).with_tuples(vec![vec![0, 1], vec![1, 2], vec![0, 1], vec![5]]);
    assert_eq!(r.r.len(), 2);
    assert!(r.contains(&[1, 2]));
    assert!(!r.contains(&[5]));
    let sub = r.restrict(&[0, 1]);
    assert!(sub.contains(&[0, 1]));
    assert!(!sub.contains(&[1, 2]));
}

#[test]
fn operation_table_and_call() {
    let mut f = Operation::new("f", 2);
    f.add(vec![0, 0, 1]);
    f.add(vec![0, 0, 2]);
    f.add(vec![1]);
    assert_eq!(f.call(&[0, 0]), Some(2));
    assert_eq!(f.call(&[1, 0]), None);
    assert_eq!(f.call(&[0]), None);
    let g = f.restrict(&[0, 2]);
    assert_eq!(g.call(&[0, 0]), Some(2));
}

#[test]
fn model_sorts_universe() {
    let m = Model::new(vec![3i64, 1, 2], Vec::new(), Vec::new());
    assert_eq!(m.universe, vec![1, 2, 3]);
}
