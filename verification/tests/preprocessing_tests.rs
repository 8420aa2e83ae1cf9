use opendefalgsplitting::first_order::formulas::Variable;
use opendefalgsplitting::first_order::models::Model;
use opendefalgsplitting::first_order::relops::Relation;
use opendefalgsplitting::preprocessing::{preprocesamiento2, Pattern};

#[test]
fn test_preprocesamiento_un_patron() {
    let mut r = Relation::new("T0", 2);
    r.add(vec![0, 1]);
    r.add(vec![1, 0]);
    let preps = preprocesamiento2(&r);
    assert!(!preps.is_empty());
}

#[test]
fn test_preprocesamiento_varios_patrones() {
    let mut r = Relation::new("T0", 2);
    r.add(vec![0, 0]);
    r.add(vec![1, 1]);
    r.add(vec![0, 1]);
    let preps = preprocesamiento2(&r);
    assert!(!preps.is_empty());
}

#[test]
fn test_pattern_pre_post_formula() {
    let t = vec![0, 1, 1];
    let p = Pattern::new(t);
    let pre = p.preprocessed_formula();
    let post = p.postprocessed_formula();
    assert!(!pre.implied_declaration().is_empty() || pre.free_vars().is_empty());
    assert!(!post.implied_declaration().is_empty() || post.free_vars().is_empty());
}

#[test]
fn pattern_classes_and_name() {
    let p = Pattern::new(vec![5, 7, 7, 5, 9]);
    assert_eq!(p.pruned_tuple, vec![5, 7, 9]);
    assert_eq!(p.pattern, vec![vec![0, 3], vec![1, 2], vec![4]]);
    assert_eq!(p.name(), "|0,3|1,2|4|a3");
    let q = Pattern::new(vec![1, 2, 2, 1, 0]);
    assert!(p.same_pattern(&q));
    let r = Pattern::new(vec![1, 1, 2, 1, 0]);
    assert!(!p.same_pattern(&r));
}

#[test]
fn split_by_pattern_names_and_rows() {
    let mut r = Relation::new("T0", 2);
    r.add(vec![0, 0]);
    r.add(vec![1, 1]);
    r.add(vec![0, 1]);
    let preps = preprocesamiento2(&r);
    assert_eq!(preps.len(), 2);
    let diag = preps.iter().find(|p| p.sym == "T0|0,1|a1").expect("diagonal piece");
    assert_eq!(diag.arity, 1);
    assert!(diag.contains(&[0]) && diag.contains(&[1]));
    let off = preps.iter().find(|p| p.sym == "T0|0|1|a2").expect("off-diagonal piece");
    assert_eq!(off.arity, 2);
    assert!(off.contains(&[0, 1]));
    assert_eq!(off.superrel_sym.as_deref(), Some("T0"));
    assert_eq!(off.superrel.as_ref().map(|s| s.r.len()), Some(3));
}

#[test]
fn preprocessed_formula_declares_one_variable_per_class() {
    let p = Pattern::new(vec![0, 1, 1]);
    let f = p.preprocessed_formula();
    let decl: Vec<String> = f.implied_declaration().into_iter().map(|v| v.sym).collect();
    assert_eq!(decl, vec![Variable::from_index(0).sym, Variable::from_index(1).sym]);
    let m = Model::new(vec![0, 1, 2], Vec::new(), Vec::new());
    let mut ext = f.extension(&m, Some(2));
    ext.sort();
    let mut expected: Vec<Vec<i64>> = Vec::new();
    for a in 0..3 {
        for b in 0..3 {
            if a != b {
                expected.push(vec![a, b]);
            }
        }
    }
    assert_eq!(ext, expected);
}

#[test]
fn pattern_names_agree_exactly_when_patterns_agree() {
    assert_eq!(Pattern::new(vec![0, 1, 1]).name(), "|0|1,2|a2");
    assert_eq!(Pattern::new(vec![5, 5]).name(), "|0,1|a1");
    assert_eq!(Pattern::new(vec![3, 4, 4]).name(), Pattern::new(vec![0, 1, 1]).name());
    assert_ne!(Pattern::new(vec![3, 3, 4]).name(), Pattern::new(vec![0, 1, 1]).name());
}
