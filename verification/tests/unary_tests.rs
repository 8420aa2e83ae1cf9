use opendefalgsplitting::first_order::models::Model;
use opendefalgsplitting::first_order::relops::{Operation, Relation};
use opendefalgsplitting::unary::{
    audit_unary_targets, decide_unary, generated_unary_closure, unary_fingerprint, UnaryDecision,
};

#[test]
fn unary_no_ops_partial_not_definable() {
    let universe = vec![0, 1, 2];
    let target = Relation::new("T", 1).with_tuples(vec![vec![0], vec![1]]);
    let model = Model::new(universe, Vec::new(), Vec::new());
    match decide_unary(&model, &target) {
        UnaryDecision::NotDefinable { .. } => {}
        other => panic!("esperaba NotDefinable, got {:?}", other),
    }
}

#[test]
fn unary_no_ops_full_definable() {
    let universe = vec![0, 1];
    let target = Relation::new("T", 1).with_tuples(vec![vec![0], vec![1]]);
    let model = Model::new(universe, Vec::new(), Vec::new());
    match decide_unary(&model, &target) {
        UnaryDecision::Definable { .. } => {}
        other => panic!("esperaba Definable, got {:?}", other),
    }
}

#[test]
fn arity_two_skips() {
    let universe = vec![0, 1];
    let target = Relation::new("T", 2).with_tuples(vec![vec![0, 0]]);
    let model = Model::new(universe, Vec::new(), Vec::new());
    assert!(matches!(decide_unary(&model, &target), UnaryDecision::Skip));
}

#[test]
fn unary_three_element_partial_rejects() {
    let universe = vec![0, 1, 2];
    let target = Relation::new("T", 1).with_tuples(vec![vec![0], vec![1]]);
    let model = Model::new(universe, Vec::new(), Vec::new());
    match decide_unary(&model, &target) {
        UnaryDecision::NotDefinable { reason } => {
            assert!(reason.contains("neither empty nor full"), "expected no-ops partial reject, got {reason}");
        }
        other => panic!("expected NotDefinable, got {:?}", other),
    }
}

#[test]
fn unary_flip_partial_not_definable() {
    let universe = vec![0, 1];
    let mut s = Operation::new("s", 1);
    s.add(vec![0, 1]);
    s.add(vec![1, 0]);
    let ops = vec![s];
    let target = Relation::new("T0", 1).with_tuples(vec![vec![0]]);
    let model = Model::new(universe, Vec::new(), ops);
    let fp0 = unary_fingerprint(0, &model);
    let fp1 = unary_fingerprint(1, &model);
    assert_eq!(fp0, fp1, "flip should give isomorphic fingerprints");
    match decide_unary(&model, &target) {
        UnaryDecision::NotDefinable { .. } => {}
        other => panic!("esperaba NotDefinable, got {:?}", other),
    }
}

#[test]
fn unary_empty_target_is_definable() {
    let model = Model::new(vec![0, 1, 2], Vec::new(), Vec::new());
    let target = Relation::new("T", 1);
    match decide_unary(&model, &target) {
        UnaryDecision::Definable { reason } => assert!(reason.contains("R=\u{2205}")),
        other => panic!("expected Definable, got {:?}", other),
    }
}

#[test]
fn unary_mix_reason_reports_counts() {
    let mut s = Operation::new("s", 1);
    s.add(vec![0, 1]);
    s.add(vec![1, 0]);
    let model = Model::new(vec![0, 1], Vec::new(), vec![s]);
    let target = Relation::new("T0", 1).with_tuples(vec![vec![0]]);
    match decide_unary(&model, &target) {
        UnaryDecision::NotDefinable { reason } => {
            assert_eq!(reason, "unary fingerprint mix: |R_h|=1 != |A_h|=2 (Castellano Cor.13)")
        }
        other => panic!("expected NotDefinable, got {:?}", other),
    }
}

#[test]
fn unary_orbit_target_is_definable() {
    // s swaps 0 and 1 and fixes 2; {0, 1} is a union of fingerprint classes
    let mut s = Operation::new("s", 1);
    s.add(vec![0, 1]);
    s.add(vec![1, 0]);
    s.add(vec![2, 2]);
    let model = Model::new(vec![0, 1, 2], Vec::new(), vec![s]);
    let target = Relation::new("T0", 1).with_tuples(vec![vec![0], vec![1]]);
    assert!(matches!(decide_unary(&model, &target), UnaryDecision::Definable { .. }));
}

#[test]
fn closure_and_fingerprint_bytes() {
    let mut s = Operation::new("s", 1);
    s.add(vec![0, 1]);
    s.add(vec![1, 2]);
    let mut c = Operation::new("c", 0);
    c.add(vec![5]);
    let model = Model::new(vec![0, 1, 2, 5], Vec::new(), vec![s, c]);
    assert_eq!(generated_unary_closure(1, &model), vec![1, 2, 5]);
    let fp = unary_fingerprint(2, &model);
    // size 2 (2 and 5), then op c (arity 0, id of 5 = 1), then op s (no defined value on 2 or 5)
    let mut expected: Vec<u8> = vec![2, 0, 0, 0];
    expected.extend_from_slice(&[0, 0, 0, 0]);
    expected.extend_from_slice(b"c");
    expected.push(0);
    expected.extend_from_slice(&[1, 0, 0, 0]);
    expected.extend_from_slice(&[1, 0, 0, 0]);
    expected.extend_from_slice(b"s");
    expected.push(0);
    assert_eq!(fp, expected);
}

#[test]
fn audit_lists_target_relations() {
    let t = Relation::new("T1", 1).with_tuples(vec![vec![0]]);
    let r = Relation::new("R", 1);
    let model = Model::new(vec![0, 1], vec![t, r], Vec::new());
    let rows = audit_unary_targets(&model);
    assert_eq!(rows.len(), 1);
    assert_eq!(rows[0].target_sym, "T1");
    assert_eq!(rows[0].decision, "NotDefinable");
    assert!(rows[0].would_early_exit);
    assert!(!rows[0].has_nonunary_ops);
    assert_eq!(rows[0].reason, "unary no-ops: R neither empty nor full");
}
