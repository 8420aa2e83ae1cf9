use opendefalgsplitting::engines::dispatch::{EngineKind, EngineOutcome, FragmentKind};
use opendefalgsplitting::engines::horn::check_horn;
use opendefalgsplitting::engines::partition::{enumerate_tuples, has_nontrivial_ops, TuplePartition};
use opendefalgsplitting::engines::positive::check_positive_split;
use opendefalgsplitting::engines::types::{
    atomic_pp_type, choose_fo_split_k, equality_pattern, type_explosion_risk,
};
use opendefalgsplitting::first_order::models::Model;
use opendefalgsplitting::first_order::relops::{Operation, Relation};

fn cartesian(universe: &[i64], arity: usize) -> Vec<Vec<i64>> {
    if arity == 0 {
        return vec![vec![]];
    }
    let mut out = vec![vec![]];
    for _ in 0..arity {
        let mut next = Vec::new();
        for prefix in &out {
            for &u in universe {
                let mut row = prefix.clone();
                row.push(u);
                next.push(row);
            }
        }
        out = next;
    }
    out
}

#[test]
fn horn_accepts_full_via_pp_pure() {
    let universe = vec![0, 1];
    let target = Relation::new("T", 2).with_tuples(cartesian(&universe, 2));
    let model = Model::new(universe, Vec::new(), Vec::new());
    let out = check_horn(&model, &target, 1).expect("horn");
    assert!(out.definable);
    assert!(out.engine.contains("horn_pp"));
}

#[test]
fn horn_equality_diag_definable() {
    let universe = vec![0, 1, 2];
    let target = Relation::new("T", 2).with_tuples(vec![vec![0, 0], vec![1, 1], vec![2, 2]]);
    let model = Model::new(universe, Vec::new(), Vec::new());
    let out = check_horn(&model, &target, 1).expect("horn");
    assert!(out.definable, "diagonal should be equality-Horn / PP-pure");
}

#[test]
fn horn_implication_xeq_y_implies_xeq_z() {
    let universe = vec![0, 1];
    let mut rows = Vec::new();
    for x in &universe {
        for y in &universe {
            for z in &universe {
                if x != y || x == z {
                    rows.push(vec![*x, *y, *z]);
                }
            }
        }
    }
    let target = Relation::new("T", 3).with_tuples(rows);
    let model = Model::new(universe, Vec::new(), Vec::new());
    let out = check_horn(&model, &target, 1).expect("horn");
    assert!(out.definable);
}

#[test]
fn positive_diag_no_ops() {
    let universe = vec![0, 1, 2];
    let target = Relation::new("T", 2).with_tuples(vec![vec![0, 0], vec![1, 1], vec![2, 2]]);
    let model = Model::new(universe, Vec::new(), Vec::new());
    let out = check_positive_split(&model, &target).expect("pos");
    assert!(out.definable);
    assert_eq!(out.engine, "positive_split");
}

#[test]
fn positive_term_collapse_engine_label_with_ops() {
    let universe = vec![0, 1];
    let mut f = Operation::new("f", 1);
    f.add(vec![0, 0]);
    f.add(vec![1, 1]);
    let target = Relation::new("T", 2).with_tuples(vec![vec![0, 0], vec![1, 1]]);
    let model = Model::new(universe, Vec::new(), vec![f]);
    let out = check_positive_split(&model, &target).expect("pos");
    assert!(out.definable);
    assert_eq!(out.engine, "positive_split_term_collapse");
}

#[test]
fn positive_rejects_single_off_diagonal_pair() {
    let universe = vec![0, 1, 2];
    let target = Relation::new("T", 2).with_tuples(vec![vec![0, 1]]);
    let model = Model::new(universe, Vec::new(), Vec::new());
    let out = check_positive_split(&model, &target).expect("pos");
    assert!(!out.definable);
    assert_eq!(out.fragment, "qf_pos");
}

#[test]
fn horn_pp_type_separates_tuples_without_ops() {
    // Without operations the atomic type is the tuple itself, so every target is pure.
    let universe = vec![0, 1, 2];
    let target = Relation::new("T", 2).with_tuples(vec![vec![0, 1]]);
    let model = Model::new(universe, Vec::new(), Vec::new());
    let out = check_horn(&model, &target, 0).expect("horn");
    assert!(out.definable);
    assert_eq!(out.engine, "horn_pp_d1");
    assert_eq!(out.fragment, "horn");
}

#[test]
fn horn_refuses_too_many_tuples() {
    let universe: Vec<i64> = (0..17).collect();
    let target = Relation::new("T", 2);
    let model = Model::new(universe, Vec::new(), Vec::new());
    let err = check_horn(&model, &target, 1).unwrap_err();
    assert!(err.contains("exceeds MAX=256"));
}

#[test]
fn enumerate_tuples_in_odometer_order() {
    let model = Model::new(vec![0, 1], Vec::new(), Vec::new());
    let ts = enumerate_tuples(&model, 2).expect("tuples");
    assert_eq!(ts, vec![vec![0, 0], vec![0, 1], vec![1, 0], vec![1, 1]]);
    let empty = enumerate_tuples(&model, 0).expect("tuples");
    assert_eq!(empty, vec![Vec::<i64>::new()]);
}

#[test]
fn enumerate_tuples_refuses_too_many() {
    let model = Model::new(vec![0, 1, 2, 3, 4, 5, 6, 7, 8, 9, 10, 11, 12, 13, 14, 15, 16], Vec::new(), Vec::new());
    let err = enumerate_tuples(&model, 2).unwrap_err();
    assert_eq!(err, "Cannot enumerate 2-tuples: |U|^2 = 289 exceeds MAX=256");
}

#[test]
fn partition_refine_groups_by_key() {
    let mut p = TuplePartition { blocks: vec![vec![vec![0], vec![1], vec![2], vec![3]]] };
    p.refine(&vec![vec![vec![1u8], vec![2u8], vec![1u8], vec![3u8]]]);
    assert_eq!(p.blocks, vec![vec![vec![0], vec![2]], vec![vec![1]], vec![vec![3]]]);
    let t = Relation::new("T", 1).with_tuples(vec![vec![0], vec![2]]);
    assert!(p.is_target_pure(&t));
    let t2 = Relation::new("T", 1).with_tuples(vec![vec![0]]);
    assert!(!p.is_target_pure(&t2));
}

#[test]
fn equality_pattern_upper_triangle() {
    assert_eq!(equality_pattern(&[1, 1, 2]), vec![1, 0, 0]);
    assert_eq!(equality_pattern(&[5]), Vec::<u8>::new());
}

#[test]
fn atomic_pp_type_with_unary_op() {
    let mut f = Operation::new("f", 1);
    f.add(vec![0, 1]);
    f.add(vec![1, 0]);
    let model = Model::new(vec![0, 1], Vec::new(), vec![f]);
    // depth 0: v0 v1; depth 1: f(v0) f(v1); depth 2: f(f(v0)) f(f(v1))
    assert_eq!(atomic_pp_type(&model, &[0, 1], 2), vec![0, 1, 1, 0, 0, 1]);
    assert_eq!(atomic_pp_type(&model, &[0, 1], 0), vec![0, 1]);
}

#[test]
fn atomic_pp_type_orders_by_key() {
    let model = Model::new(vec![0, 1], Vec::new(), Vec::new());
    let row: Vec<i64> = (0..11).collect();
    // keys "v0","v1","v10","v2",...: "v10" sorts before "v2"
    assert_eq!(atomic_pp_type(&model, &row, 0), vec![0, 1, 10, 2, 3, 4, 5, 6, 7, 8, 9]);
}

#[test]
fn explosion_risk_and_fo_split_k() {
    let g = Operation::new("g", 3);
    let model = Model::new(vec![0, 1], Vec::new(), vec![g]);
    assert!(type_explosion_risk(&model, 3));
    assert!(!type_explosion_risk(&model, 2));
    assert_eq!(choose_fo_split_k(&model, 3, 5), 1);
    assert_eq!(choose_fo_split_k(&model, 2, 5), 5);
    assert_eq!(choose_fo_split_k(&model, 2, 0), 1);
    let big = Model::new(vec![0, 1, 2, 3, 4], Vec::new(), Vec::new());
    assert_eq!(choose_fo_split_k(&big, 2, 3), 1);
    assert!(has_nontrivial_ops(&model));
    assert!(!has_nontrivial_ops(&big));
}

#[test]
fn fragment_and_engine_names() {
    assert_eq!(FragmentKind::parse(" Qf-Pos ").unwrap(), FragmentKind::QfPos);
    assert_eq!(FragmentKind::parse("guarded").unwrap(), FragmentKind::Gf);
    assert_eq!(FragmentKind::parse("nope").unwrap_err(), "unknown fragment nope");
    assert_eq!(FragmentKind::AtomicConj.as_str(), "atomic_conj");
    assert_eq!(EngineKind::parse("HomType").unwrap(), EngineKind::HomType);
    assert_eq!(EngineKind::parse("ep_cert").unwrap(), EngineKind::Cert);
    assert_eq!(EngineKind::parse("x").unwrap_err(), "unknown engine x");
}

#[test]
fn engine_outcome_sketch() {
    let out = EngineOutcome::basic(true, "ep", "cert");
    assert!(out.witness_sketch.is_none());
    let out = out.with_sketch("{}");
    assert_eq!(out.witness_sketch.as_deref(), Some("{}"));
    assert!(out.definable);
    assert_eq!(out.engine, "cert");
}
